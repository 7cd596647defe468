//! Evaluator: replays labeled queries through the query engine and
//! aggregates ranking-quality metrics, all in Q16.16 fixed point.
//!
//! Judgments are grouped by query text.  For each judged document the
//! first judgment wins; a query with no relevant document (every grade 0)
//! is skipped and does not enter the means.  Per query:
//! Recall@k = relevant retrieved / relevant judged; MRR@k = 1/rank of the
//! first relevant result (0 when none); nDCG@k = DCG@k / IDCG@k with
//! gain `2^rel - 1` (grades capped at 32) and discount `1/log2(rank+1)`.
use vstd::prelude::*;
use vstd::arithmetic::power2::pow2;
use crate::CorpusError;
use crate::fixedpoint::spec_log2_q16;
use crate::fixedpoint::log2_q16;
use crate::index::InvertedIndex;
use crate::score::QueryResult;
use crate::score::Scorer;
use crate::search::search;
use crate::tokenize::firsts;
use crate::tokenize::contains_string;

verus! {

/// One relevance judgment: a query, a document and a graded relevance.
pub struct Qrel {
    pub query: String,
    pub doc_id: u64,
    pub relevance: u64,
}

/// Whether a qrels line parses as a judgment record; decided by
/// `parse_qrel_line` through `serde_json`, a function of the line alone.
pub uninterp spec fn qrel_line_ok(s: Seq<char>) -> bool;

/// The `query` field of a well-formed qrels line.
pub uninterp spec fn qrel_line_query(s: Seq<char>) -> Seq<char>;

/// The `doc_id` field of a well-formed qrels line.
pub uninterp spec fn qrel_line_doc(s: Seq<char>) -> u64;

/// The `relevance` field of a well-formed qrels line.
pub uninterp spec fn qrel_line_rel(s: Seq<char>) -> u64;

/// Relies on `serde_json::from_str::<Value>` to parse the line, and on
/// `Value::get`, `Value::as_str` and `Value::as_u64` to read the `query`
/// string and the `doc_id` and `relevance` integers; a line without all
/// three is refused.  The outcome is a function of the line alone.
#[verifier::external_body]
fn parse_qrel_line(line: &str) -> (r: Option<(String, u64, u64)>)
    ensures
        r is Some <==> qrel_line_ok(line@),
        r matches Some(p) ==> p.0@ == qrel_line_query(line@) && p.1 == qrel_line_doc(line@)
            && p.2 == qrel_line_rel(line@),
{
    let v: serde_json::Value = match serde_json::from_str(line) {
        Ok(v) => v,
        Err(_) => return None,
    };
    match (
        v.get("query").and_then(|x| x.as_str()),
        v.get("doc_id").and_then(|x| x.as_u64()),
        v.get("relevance").and_then(|x| x.as_u64()),
    ) {
        (Some(q), Some(d), Some(r)) => Some((q.to_string(), d, r)),
        _ => None,
    }
}

/// Load judgments given as lines of text: one JSON record per non-blank
/// line, blank lines skipped, the first bad line reported by number.
pub fn load_qrels(lines: &Vec<String>) -> (r: Result<Vec<Qrel>, CorpusError>)
    ensures
        match r {
            Ok(qs) => {
                let recs = crate::docs::record_lines(crate::tokenize::views_of(lines@));
                &&& qs@.len() == recs.len()
                &&& forall|i: int|
                    0 <= i < qs@.len() ==> (#[trigger] qs@[i]).query@ == qrel_line_query(recs[i])
                        && qs@[i].doc_id == qrel_line_doc(recs[i]) && qs@[i].relevance
                        == qrel_line_rel(recs[i])
            },
            Err(e) => {
                &&& e matches CorpusError::RecordParse { line } && {
                    &&& 1 <= line <= lines@.len()
                    &&& !crate::docs::is_blank(lines@[line - 1]@)
                    &&& !qrel_line_ok(lines@[line - 1]@)
                }
            },
        },
{
    let ghost lv = crate::tokenize::views_of(lines@);
    let mut qs: Vec<Qrel> = Vec::new();
    let mut i: usize = 0;
    while i < lines.len()
        invariant
            i <= lines@.len(),
            lv == crate::tokenize::views_of(lines@),
            qs@.len() == crate::docs::record_lines(lv.take(i as int)).len(),
            forall|a: int|
                0 <= a < qs@.len() ==> (#[trigger] qs@[a]).query@ == qrel_line_query(
                    crate::docs::record_lines(lv.take(i as int))[a],
                ) && qs@[a].doc_id == qrel_line_doc(crate::docs::record_lines(lv.take(i as int))[a])
                    && qs@[a].relevance == qrel_line_rel(
                    crate::docs::record_lines(lv.take(i as int))[a],
                ),
        decreases lines@.len() - i,
    {
        let ghost prev = crate::docs::record_lines(lv.take(i as int));
        proof {
            assert(lv.take(i + 1).drop_last() =~= lv.take(i as int));
            assert(lv.take(i + 1).last() == lv[i as int]);
            assert(lv[i as int] == lines@[i as int]@);
        }
        let line = &lines[i];
        if !crate::docs::is_blank_exec(line.as_str()) {
            match parse_qrel_line(line.as_str()) {
                Some(p) => {
                    let (query, doc_id, relevance) = p;
                    qs.push(Qrel { query, doc_id, relevance });
                    proof {
                        assert(crate::docs::record_lines(lv.take(i + 1)) =~= prev.push(
                            lv[i as int],
                        ));
                    }
                },
                None => {
                    proof {
                        assert(lv[i as int] == lines@[i as int]@);
                    }
                    return Err(CorpusError::RecordParse { line: i + 1 });
                },
            }
        }
        i += 1;
    }
    proof {
        assert(lv.take(lines@.len() as int) =~= lv);
    }
    Ok(qs)
}

/// The grade of a document under a judgment list: the first judgment for
/// that document wins; unjudged documents grade 0.
pub open spec fn spec_grade(judged: Seq<(u64, u64)>, doc: u64) -> u64
    decreases judged.len(),
{
    if judged.len() == 0 {
        0
    } else if judged.first().0 == doc {
        judged.first().1
    } else {
        spec_grade(judged.drop_first(), doc)
    }
}

/// The number of distinct relevant (grade at least 1) documents among the
/// first `upto` judgments.
pub open spec fn rel_count_upto(judged: Seq<(u64, u64)>, upto: int) -> nat
    decreases upto,
{
    if upto <= 0 {
        0
    } else {
        rel_count_upto(judged, upto - 1) + if (forall|j: int|
            0 <= j < upto - 1 ==> (#[trigger] judged[j]).0 != judged[upto - 1].0) && spec_grade(
            judged,
            judged[upto - 1].0,
        ) >= 1 {
            1nat
        } else {
            0nat
        }
    }
}

/// The number of distinct relevant documents a judgment list names.
pub open spec fn spec_rel_count(judged: Seq<(u64, u64)>) -> nat {
    rel_count_upto(judged, judged.len() as int)
}

/// How many of the first `upto` results are relevant.
pub open spec fn hits_upto(results: Seq<QueryResult>, judged: Seq<(u64, u64)>, upto: int) -> nat
    decreases upto,
{
    if upto <= 0 {
        0
    } else {
        hits_upto(results, judged, upto - 1) + if spec_grade(
            judged,
            results[upto - 1].doc_id as u64,
        ) >= 1 {
            1nat
        } else {
            0nat
        }
    }
}

/// The 1-based rank of the first relevant result at or after `from`;
/// 0 when none is relevant.
pub open spec fn first_rel_rank(results: Seq<QueryResult>, judged: Seq<(u64, u64)>, from: int) -> int
    decreases results.len() - from,
{
    if from < 0 || from >= results.len() {
        0
    } else if spec_grade(judged, results[from].doc_id as u64) >= 1 {
        from + 1
    } else {
        first_rel_rank(results, judged, from + 1)
    }
}

/// The gain of a grade: `2^rel - 1` in Q16.16, grades capped at 32.
pub open spec fn spec_gain_q16(rel: u64) -> int {
    (pow2(
        if rel > 32 {
            32nat
        } else {
            rel as nat
        },
    ) - 1) * 65536
}

/// Discounted cumulative gain of the first `upto` results, in Q16.16:
/// each rank's gain divided by `log2(rank + 1)`.
pub open spec fn dcg_upto(results: Seq<QueryResult>, judged: Seq<(u64, u64)>, upto: int) -> int
    decreases upto,
{
    if upto <= 0 {
        0
    } else {
        dcg_upto(results, judged, upto - 1) + spec_gain_q16(
            spec_grade(judged, results[upto - 1].doc_id as u64),
        ) * 0x100000000 / (spec_log2_q16((upto + 1) as nat) as int)
    }
}

/// Discounted cumulative gain of a plain grade list (the ideal ordering).
pub open spec fn dcg_grades_upto(grades: Seq<u64>, upto: int) -> int
    decreases upto,
{
    if upto <= 0 {
        0
    } else {
        dcg_grades_upto(grades, upto - 1) + spec_gain_q16(grades[upto - 1]) * 0x100000000 / (
        spec_log2_q16((upto + 1) as nat) as int)
    }
}

/// The grades of the distinct judged documents, first judgment winning,
/// in judgment order.
pub open spec fn grades_upto(judged: Seq<(u64, u64)>, upto: int) -> Seq<u64>
    decreases upto,
{
    if upto <= 0 {
        Seq::<u64>::empty()
    } else {
        let prev = grades_upto(judged, upto - 1);
        if forall|j: int| 0 <= j < upto - 1 ==> (#[trigger] judged[j]).0 != judged[upto - 1].0 {
            prev.push(spec_grade(judged, judged[upto - 1].0))
        } else {
            prev
        }
    }
}

/// `2^e` for small `e`.
fn pow2_exec(e: u64) -> (r: u64)
    requires
        e <= 32,
    ensures
        1 <= r <= 0x100000000,
        r == pow2(e as nat),
{
    proof {
        vstd::arithmetic::power2::lemma2_to64();
    }
    let mut r: u64 = 1;
    let mut i: u64 = 0;
    while i < e
        invariant
            i <= e <= 32,
            r == pow2(i as nat),
            r <= 0x100000000,
        decreases e - i,
    {
        proof {
            assert(pow2(i as nat + 1) == 2 * pow2(i as nat)) by {
                vstd::arithmetic::power2::lemma_pow2_unfold(i as nat + 1);
            }
            if i as nat + 1 <= 32 {
                if i as nat + 1 < 32 {
                    vstd::arithmetic::power2::lemma_pow2_strictly_increases(i as nat + 1, 32);
                }
                vstd::arithmetic::power2::lemma2_to64();
            }
        }
        r = r * 2;
        i = i + 1;
    }
    r
}

/// The Q16.16 gain of a grade.
fn gain_q16(rel: u64) -> (r: u64)
    ensures
        r == spec_gain_q16(rel),
        r <= 0xFFFFFFFF0000,
{
    let e: u64 = if rel > 32 {
        32
    } else {
        rel
    };
    let p = pow2_exec(e);
    proof {
        vstd::arithmetic::mul::lemma_mul_inequality(p as int - 1, 0xFFFFFFFF, 65536);
        vstd::arithmetic::mul::lemma_mul_is_commutative(p as int - 1, 65536);
        vstd::arithmetic::mul::lemma_mul_is_commutative(0xFFFFFFFF, 65536);
    }
    (p - 1) * 65536
}

/// The grade of a document: the first judgment for it, 0 when unjudged.
fn grade_of(judged: &Vec<(u64, u64)>, doc: u64) -> (r: u64)
    ensures
        r == spec_grade(judged@, doc),
{
    let mut i: usize = 0;
    proof {
        assert(judged@.skip(0) =~= judged@);
    }
    while i < judged.len()
        invariant
            i <= judged@.len(),
            spec_grade(judged@, doc) == spec_grade(judged@.skip(i as int), doc),
        decreases judged@.len() - i,
    {
        proof {
            assert(judged@.skip(i as int).first() == judged@[i as int]);
            assert(judged@.skip(i as int).drop_first() =~= judged@.skip(i + 1));
        }
        if judged[i].0 == doc {
            return judged[i].1;
        }
        i += 1;
    }
    proof {
        assert(judged@.skip(judged@.len() as int).len() == 0);
    }
    0
}

/// Sort grades descending.
fn sort_grades_desc(v: Vec<u64>) -> (r: Vec<u64>)
    ensures
        r@.to_multiset() == v@.to_multiset(),
        r@.len() == v@.len(),
        forall|a: int, b: int| 0 <= a < b < r@.len() ==> r@[a] >= r@[b],
{
    broadcast use vstd::seq_lib::group_to_multiset_ensures;
    broadcast use vstd::seq_lib::to_multiset_insert;

    let mut r: Vec<u64> = Vec::new();
    let mut i: usize = 0;
    while i < v.len()
        invariant
            i <= v@.len(),
            r@.len() == i,
            r@.to_multiset() == v@.take(i as int).to_multiset(),
            forall|a: int, b: int| 0 <= a < b < r@.len() ==> r@[a] >= r@[b],
        decreases v@.len() - i,
    {
        let x = v[i];
        let mut pos: usize = 0;
        while pos < r.len() && r[pos] >= x
            invariant
                pos <= r@.len(),
                forall|a: int| 0 <= a < pos ==> r@[a] >= x,
                forall|a: int, b: int| 0 <= a < b < r@.len() ==> r@[a] >= r@[b],
            decreases r@.len() - pos,
        {
            pos += 1;
        }
        let ghost old_r = r@;
        r.insert(pos, x);
        proof {
            assert(r@ == old_r.insert(pos as int, x));
            assert(v@.take(i + 1).drop_last() =~= v@.take(i as int));
            assert(v@.take(i + 1) =~= v@.take(i as int).push(x));
            vstd::seq_lib::to_multiset_build(v@.take(i as int), x);
            vstd::seq_lib::to_multiset_insert(old_r, pos as int, x);
            assert(v@.take(i as int).push(x).to_multiset() =~= v@.take(
                i as int,
            ).to_multiset().insert(x));
            assert(r@.to_multiset() =~= old_r.to_multiset().insert(x));
            assert(r@.to_multiset() =~= v@.take(i + 1).to_multiset());
            assert forall|a: int, b: int| 0 <= a < b < r@.len() implies r@[a] >= r@[b] by {
                if b < pos {
                    assert(r@[a] == old_r[a] && r@[b] == old_r[b]);
                } else if b == pos {
                    assert(r@[b] == x && r@[a] == old_r[a]);
                } else if a < pos {
                    assert(r@[a] == old_r[a] && r@[b] == old_r[b - 1]);
                } else if a == pos {
                    assert(r@[a] == x && r@[b] == old_r[b - 1]);
                    assert(!(r@[b] >= x) || old_r[b - 1] <= x);
                    if pos < old_r.len() {
                        assert(!(old_r[pos as int] >= x));
                        if b - 1 > pos {
                            assert(old_r[pos as int] >= old_r[b - 1]);
                        }
                    }
                } else {
                    assert(r@[a] == old_r[a - 1] && r@[b] == old_r[b - 1]);
                }
            }
        }
        i += 1;
    }
    proof {
        assert(v@.take(v@.len() as int) =~= v@);
    }
    r
}

/// The per-query metrics at cutoff `k`, over a retrieved list and the
/// query's judgments: `(Recall@k, MRR@k, nDCG@k)`, each in Q16.16.
///
/// `results` is the ranked list the engine returned (at most `k` long);
/// nDCG divides the list's discounted gain by that of an ideal ordering
/// of the query's distinct judged grades, and is 0 when that ideal gain
/// is 0.
pub fn metrics_at_k(results: &Vec<QueryResult>, judged: &Vec<(u64, u64)>, k: usize) -> (m: (
    u128,
    u128,
    u128,
))
    requires
        spec_rel_count(judged@) >= 1,
        results@.len() <= k,
        k <= 0x10000000000,
    ensures
        m.0 == (hits_upto(results@, judged@, results@.len() as int) * 65536) as int / (
        spec_rel_count(judged@) as int),
        m.1 == (if first_rel_rank(results@, judged@, 0) > 0 {
            65536int / first_rel_rank(results@, judged@, 0)
        } else {
            0
        }),
        exists|ideal: Seq<u64>|
            {
                &&& ideal.to_multiset() == grades_upto(judged@, judged@.len() as int).to_multiset()
                &&& (forall|a: int, b: int| 0 <= a < b < ideal.len() ==> ideal[a] >= ideal[b])
                &&& #[trigger] ideal.len() == grades_upto(judged@, judged@.len() as int).len()
                &&& {
                    let t = if k <= ideal.len() {
                        k as int
                    } else {
                        ideal.len() as int
                    };
                    let idcg = dcg_grades_upto(ideal, t);
                    m.2 == (if idcg > 0 {
                        dcg_upto(results@, judged@, results@.len() as int) * 65536 / idcg
                    } else {
                        0
                    })
                }
            },
{
    // Recall@k.
    let mut relevant: usize = 0;
    let mut i: usize = 0;
    while i < judged.len()
        invariant
            i <= judged@.len(),
            relevant == rel_count_upto(judged@, i as int),
            relevant <= i,
        decreases judged@.len() - i,
    {
        let doc = judged[i].0;
        let mut fresh: bool = true;
        let mut j: usize = 0;
        while j < i
            invariant
                j <= i <= judged@.len(),
                fresh == (forall|a: int| 0 <= a < j ==> (#[trigger] judged@[a]).0 != doc),
            decreases i - j,
        {
            if judged[j].0 == doc {
                fresh = false;
            }
            j += 1;
        }
        if fresh {
            let g = grade_of(judged, doc);
            if g >= 1 {
                relevant += 1;
            }
        }
        i += 1;
    }
    let mut hits: usize = 0;
    let mut first_rel: usize = 0;
    let mut dcg: u128 = 0;
    let mut q: usize = 0;
    while q < results.len()
        invariant
            q <= results@.len(),
            hits == hits_upto(results@, judged@, q as int),
            hits <= q,
            first_rel <= q,
            first_rel > 0 ==> spec_grade(judged@, results@[first_rel - 1].doc_id as u64) >= 1,
            forall|a: int|
                0 <= a < (if first_rel > 0 {
                    first_rel - 1
                } else {
                    q as int
                }) ==> spec_grade(judged@, (#[trigger] results@[a]).doc_id as u64) < 1,
            dcg == dcg_upto(results@, judged@, q as int),
            dcg <= (q as int) * 0x10000000000000000,
        decreases results@.len() - q,
    {
        let g = grade_of(judged, results[q].doc_id as u64);
        if g >= 1 {
            hits += 1;
            if first_rel == 0 {
                first_rel = q + 1;
            }
        }
        let gain = gain_q16(g);
        proof {
            assert(spec_log2_q16((q + 2) as nat) >= 65536) by {
                lemma_log2_ge_one((q + 2) as nat);
            }
        }
        let lg = log2_q16((q as u128) + 2);
        let term: u128 = ((gain as u128) * 0x100000000) / (lg as u128);
        proof {
            assert((gain as int) * 0x100000000 <= 0xFFFFFFFF0000 * 0x100000000) by {
                vstd::arithmetic::mul::lemma_mul_inequality(
                    gain as int,
                    0xFFFFFFFF0000,
                    0x100000000,
                );
                vstd::arithmetic::mul::lemma_mul_is_commutative(gain as int, 0x100000000);
                vstd::arithmetic::mul::lemma_mul_is_commutative(0xFFFFFFFF0000int, 0x100000000);
            }
            vstd::arithmetic::div_mod::lemma_div_is_ordered(
                (gain as int) * 0x100000000,
                0xFFFFFFFF0000int * 0x100000000,
                lg as int,
            );
            vstd::arithmetic::div_mod::lemma_div_is_ordered_by_denominator(
                (gain as int) * 0x100000000,
                65536,
                lg as int,
            );
            assert((gain as int) * 0x100000000 >= 0) by (nonlinear_arith)
                requires
                    gain >= 0,
            ;
            vstd::arithmetic::div_mod::lemma_div_pos_is_pos((gain as int) * 0x100000000, lg as int);
            assert(term <= 0x10000000000000000);
            assert((q as int) * 0x10000000000000000 + 0x10000000000000000 == ((q as int) + 1)
                * 0x10000000000000000) by (nonlinear_arith);
            assert(((q as int) + 1) * 0x10000000000000000 <= 0xFFFFFFFFFFFFFFFFint
                * 0x10000000000000000) by {
                vstd::arithmetic::mul::lemma_mul_inequality(
                    (q as int) + 1,
                    0xFFFFFFFFFFFFFFFFint,
                    0x10000000000000000,
                );
                vstd::arithmetic::mul::lemma_mul_is_commutative(
                    (q as int) + 1,
                    0x10000000000000000,
                );
                vstd::arithmetic::mul::lemma_mul_is_commutative(
                    0xFFFFFFFFFFFFFFFFint,
                    0x10000000000000000,
                );
            }
        }
        dcg = dcg + term;
        q += 1;
    }
    let mrr: u128 = if first_rel > 0 {
        proof {
            lemma_first_rel_char(results@, judged@, first_rel as int, 0);
        }
        65536 / (first_rel as u128)
    } else {
        proof {
            lemma_first_rel_none(results@, judged@, 0);
        }
        0
    };
    // Ideal DCG from the distinct judged grades, best grades first.
    let mut grades: Vec<u64> = Vec::new();
    let mut i2: usize = 0;
    while i2 < judged.len()
        invariant
            i2 <= judged@.len(),
            grades@ == grades_upto(judged@, i2 as int),
        decreases judged@.len() - i2,
    {
        let doc = judged[i2].0;
        let mut fresh: bool = true;
        let mut j: usize = 0;
        while j < i2
            invariant
                j <= i2 <= judged@.len(),
                fresh == (forall|a: int| 0 <= a < j ==> (#[trigger] judged@[a]).0 != doc),
            decreases i2 - j,
        {
            if judged[j].0 == doc {
                fresh = false;
            }
            j += 1;
        }
        if fresh {
            let g = grade_of(judged, doc);
            grades.push(g);
        }
        i2 += 1;
    }
    let sorted = sort_grades_desc(grades);
    let t: usize = if k <= sorted.len() {
        k
    } else {
        sorted.len()
    };
    let mut idcg: u128 = 0;
    let mut w: usize = 0;
    while w < t
        invariant
            w <= t <= sorted@.len(),
            idcg == dcg_grades_upto(sorted@, w as int),
            idcg <= (w as int) * 0x10000000000000000,
        decreases t - w,
    {
        let gain = gain_q16(sorted[w]);
        proof {
            assert(spec_log2_q16((w + 2) as nat) >= 65536) by {
                lemma_log2_ge_one((w + 2) as nat);
            }
        }
        let lg = log2_q16((w as u128) + 2);
        let term: u128 = ((gain as u128) * 0x100000000) / (lg as u128);
        proof {
            assert((gain as int) * 0x100000000 <= 0xFFFFFFFF0000 * 0x100000000) by {
                vstd::arithmetic::mul::lemma_mul_inequality(
                    gain as int,
                    0xFFFFFFFF0000,
                    0x100000000,
                );
                vstd::arithmetic::mul::lemma_mul_is_commutative(gain as int, 0x100000000);
                vstd::arithmetic::mul::lemma_mul_is_commutative(0xFFFFFFFF0000int, 0x100000000);
            }
            vstd::arithmetic::div_mod::lemma_div_is_ordered(
                (gain as int) * 0x100000000,
                0xFFFFFFFF0000int * 0x100000000,
                lg as int,
            );
            vstd::arithmetic::div_mod::lemma_div_is_ordered_by_denominator(
                (gain as int) * 0x100000000,
                65536,
                lg as int,
            );
            assert((gain as int) * 0x100000000 >= 0) by (nonlinear_arith)
                requires
                    gain >= 0,
            ;
            vstd::arithmetic::div_mod::lemma_div_pos_is_pos((gain as int) * 0x100000000, lg as int);
            assert(term <= 0x10000000000000000);
            assert((w as int) * 0x10000000000000000 + 0x10000000000000000 == ((w as int) + 1)
                * 0x10000000000000000) by (nonlinear_arith);
            assert(((w as int) + 1) * 0x10000000000000000 <= 0xFFFFFFFFFFFFFFFFint
                * 0x10000000000000000) by {
                vstd::arithmetic::mul::lemma_mul_inequality(
                    (w as int) + 1,
                    0xFFFFFFFFFFFFFFFFint,
                    0x10000000000000000,
                );
                vstd::arithmetic::mul::lemma_mul_is_commutative(
                    (w as int) + 1,
                    0x10000000000000000,
                );
                vstd::arithmetic::mul::lemma_mul_is_commutative(
                    0xFFFFFFFFFFFFFFFFint,
                    0x10000000000000000,
                );
            }
        }
        idcg = idcg + term;
        w += 1;
    }
    let recall: u128 = ((hits as u128) * 65536) / (relevant as u128);
    proof {
        assert((dcg as int) <= 0x10000000000 * 0x10000000000000000) by {
            vstd::arithmetic::mul::lemma_mul_inequality(
                results@.len() as int,
                0x10000000000,
                0x10000000000000000,
            );
            vstd::arithmetic::mul::lemma_mul_is_commutative(results@.len() as int, 0x10000000000000000);
            vstd::arithmetic::mul::lemma_mul_is_commutative(0x10000000000int, 0x10000000000000000);
        }
        assert((dcg as int) * 65536 <= 0x10000000000 * 0x10000000000000000 * 65536) by {
            vstd::arithmetic::mul::lemma_mul_inequality(
                dcg as int,
                0x10000000000int * 0x10000000000000000,
                65536,
            );
            vstd::arithmetic::mul::lemma_mul_is_commutative(dcg as int, 65536);
            vstd::arithmetic::mul::lemma_mul_is_commutative(
                0x10000000000int * 0x10000000000000000,
                65536,
            );
        }
        assert(sorted@.len() == grades_upto(judged@, judged@.len() as int).len());
    }
    let ndcg: u128 = if idcg > 0 {
        (dcg * 65536) / idcg
    } else {
        0
    };
    (recall, mrr, ndcg)
}

/// Below rank 2 the discount's logarithm is at least one.
proof fn lemma_log2_ge_one(m: nat)
    requires
        m >= 2,
    ensures
        spec_log2_q16(m) >= 65536,
{
    vstd::arithmetic::power2::lemma2_to64();
    assert(crate::fixedpoint::floor_log2(m) >= 1);
    let k = crate::fixedpoint::floor_log2(m);
    vstd::arithmetic::power2::lemma_pow2_pos(k);
    assert(((m - pow2(k)) * 65536) / (pow2(k) as int) >= 0) by {
        crate::fixedpoint::lemma_floor_log2_bracket(m);
        assert((m - pow2(k)) * 65536 >= 0) by (nonlinear_arith)
            requires
                m >= pow2(k),
        ;
        vstd::arithmetic::div_mod::lemma_div_pos_is_pos((m - pow2(k)) * 65536, pow2(k) as int);
    }
}

/// When rank `r` holds the first relevant result, the first relevant
/// rank is `r`.
proof fn lemma_first_rel_char(results: Seq<QueryResult>, judged: Seq<(u64, u64)>, r: int, from: int)
    requires
        0 <= from <= r - 1,
        0 <= r - 1 < results.len(),
        spec_grade(judged, results[r - 1].doc_id as u64) >= 1,
        forall|a: int|
            0 <= a < r - 1 ==> spec_grade(judged, (#[trigger] results[a]).doc_id as u64) < 1,
    ensures
        first_rel_rank(results, judged, from) == r,
    decreases r - from,
{
    if from < r - 1 {
        lemma_first_rel_char(results, judged, r, from + 1);
    }
}

/// With no relevant result at all, the first relevant rank is 0.
proof fn lemma_first_rel_none(results: Seq<QueryResult>, judged: Seq<(u64, u64)>, from: int)
    requires
        0 <= from,
        forall|a: int|
            0 <= a < results.len() ==> spec_grade(judged, (#[trigger] results[a]).doc_id as u64)
                < 1,
    ensures
        first_rel_rank(results, judged, from) == 0,
    decreases results.len() - from,
{
    if from < results.len() {
        lemma_first_rel_none(results, judged, from + 1);
    }
}

/// The query texts of a judgment list, in order of first appearance.
pub open spec fn qrel_queries(qs: Seq<Qrel>) -> Seq<Seq<char>> {
    firsts(qs.map_values(|x: Qrel| x.query@))
}

/// The `(doc, grade)` judgments of one query, in order.
pub open spec fn judged_of(qs: Seq<Qrel>, q: Seq<char>) -> Seq<(u64, u64)>
    decreases qs.len(),
{
    if qs.len() == 0 {
        Seq::<(u64, u64)>::empty()
    } else {
        let prev = judged_of(qs.drop_last(), q);
        if qs.last().query@ == q {
            prev.push((qs.last().doc_id, qs.last().relevance))
        } else {
            prev
        }
    }
}

/// How many of the first `upto` distinct queries have at least one
/// relevant judgment.
pub open spec fn count_evaluated(qs: Seq<Qrel>, queries: Seq<Seq<char>>, upto: int) -> nat
    decreases upto,
{
    if upto <= 0 {
        0
    } else {
        count_evaluated(qs, queries, upto - 1) + if spec_rel_count(judged_of(qs, queries[upto - 1]))
            >= 1 {
            1nat
        } else {
            0nat
        }
    }
}

/// The number of distinct relevant documents a judgment list names.
pub fn rel_count(judged: &Vec<(u64, u64)>) -> (r: usize)
    ensures
        r == spec_rel_count(judged@),
{
    let mut relevant: usize = 0;
    let mut i: usize = 0;
    while i < judged.len()
        invariant
            i <= judged@.len(),
            relevant == rel_count_upto(judged@, i as int),
            relevant <= i,
        decreases judged@.len() - i,
    {
        let doc = judged[i].0;
        let mut fresh: bool = true;
        let mut j: usize = 0;
        while j < i
            invariant
                j <= i <= judged@.len(),
                fresh == (forall|a: int| 0 <= a < j ==> (#[trigger] judged@[a]).0 != doc),
            decreases i - j,
        {
            if judged[j].0 == doc {
                fresh = false;
            }
            j += 1;
        }
        if fresh {
            let g = grade_of(judged, doc);
            if g >= 1 {
                relevant += 1;
            }
        }
        i += 1;
    }
    relevant
}

/// Aggregate ranking quality over a labeled query set.
pub struct Metrics {
    /// Mean Recall@k over the evaluated queries, Q16.16.
    pub mean_recall_q16: u128,
    /// Mean MRR@k over the evaluated queries, Q16.16.
    pub mean_mrr_q16: u128,
    /// Mean nDCG@k over the evaluated queries, Q16.16.
    pub mean_ndcg_q16: u128,
    /// Distinct queries with at least one relevant judgment: only these
    /// enter the means.
    pub evaluated: usize,
    /// Distinct queries with no relevant judgment, reported but excluded
    /// from the means.
    pub skipped: usize,
}

/// Replay every judged query through the query engine and average the
/// per-query metrics.  A query with no relevant document is counted in
/// `skipped` and excluded from the means rather than dragging them to 0.
/// The per-query sums saturate at the integer limit; the division is
/// exact floor division by the number of evaluated queries.
pub fn evaluate(index: &InvertedIndex, scorer: &Scorer, qrels: &Vec<Qrel>, k: usize) -> (m: Metrics)
    requires
        index.structural_wf(),
        scorer.wf(),
        k <= 0x10000000000,
    ensures
        m.evaluated + m.skipped == qrel_queries(qrels@).len(),
        m.evaluated == count_evaluated(qrels@, qrel_queries(qrels@), qrel_queries(qrels@).len() as int),
        m.evaluated == 0 ==> m.mean_recall_q16 == 0 && m.mean_mrr_q16 == 0 && m.mean_ndcg_q16 == 0,
{
    let ghost qsv = qrels@.map_values(|x: Qrel| x.query@);
    // Distinct query texts, in order of first appearance.
    let mut queries: Vec<String> = Vec::new();
    let mut i: usize = 0;
    while i < qrels.len()
        invariant
            i <= qrels@.len(),
            qsv == qrels@.map_values(|x: Qrel| x.query@),
            crate::tokenize::views_of(queries@) == firsts(qsv.take(i as int)),
        decreases qrels@.len() - i,
    {
        proof {
            assert(qsv.take(i + 1).drop_last() =~= qsv.take(i as int));
            assert(qsv.take(i + 1).last() == qsv[i as int]);
            assert(qsv[i as int] == qrels@[i as int].query@);
        }
        let q = &qrels[i].query;
        if !contains_string(&queries, q) {
            let ghost old_q = queries@;
            queries.push(q.clone());
            proof {
                assert(crate::tokenize::views_of(queries@) =~= crate::tokenize::views_of(
                    old_q,
                ).push(q@));
            }
        }
        i += 1;
    }
    proof {
        assert(qsv.take(qrels@.len() as int) =~= qsv);
    }
    let mut sum_recall: u128 = 0;
    let mut sum_mrr: u128 = 0;
    let mut sum_ndcg: u128 = 0;
    let mut evaluated: usize = 0;
    let mut skipped: usize = 0;
    let ghost queriesv = crate::tokenize::views_of(queries@);
    let mut w: usize = 0;
    while w < queries.len()
        invariant
            index.structural_wf(),
            scorer.wf(),
            queriesv == crate::tokenize::views_of(queries@),
            queriesv == qrel_queries(qrels@),
            w <= queries@.len(),
            evaluated == count_evaluated(qrels@, queriesv, w as int),
            evaluated + skipped == w,
            k <= 0x10000000000,
        decreases queries@.len() - w,
    {
        let q = &queries[w];
        proof {
            assert(queriesv[w as int] == queries@[w as int]@);
        }
        // This query's judgments.
        let mut judged: Vec<(u64, u64)> = Vec::new();
        let mut j: usize = 0;
        while j < qrels.len()
            invariant
                j <= qrels@.len(),
                judged@ == judged_of(qrels@.take(j as int), q@),
            decreases qrels@.len() - j,
        {
            proof {
                assert(qrels@.take(j + 1).drop_last() =~= qrels@.take(j as int));
                assert(qrels@.take(j + 1).last() == qrels@[j as int]);
            }
            if qrels[j].query.eq(q) {
                judged.push((qrels[j].doc_id, qrels[j].relevance));
            }
            j += 1;
        }
        proof {
            assert(qrels@.take(qrels@.len() as int) =~= qrels@);
        }
        let relevant = rel_count(&judged);
        if relevant == 0 {
            skipped += 1;
        } else {
            let results = search(q.as_str(), index, scorer, k);
            proof {
                let full = choose|full: Seq<QueryResult>|
                    {
                        &&& #[trigger] crate::score::ranked_list(
                            full,
                            *scorer,
                            *index,
                            crate::tokenize::spec_tokens(q@, index.config),
                        )
                        &&& results@ == full.take(
                            if k <= full.len() {
                                k as int
                            } else {
                                full.len() as int
                            },
                        )
                    };
                assert(results@.len() <= k);
            }
            let (rc, mr, nd) = metrics_at_k(&results, &judged, k);
            sum_recall = if sum_recall <= 0xFFFFFFFFFFFFFFFFFFFFFFFFFFFFFFFF - rc {
                sum_recall + rc
            } else {
                0xFFFFFFFFFFFFFFFFFFFFFFFFFFFFFFFF
            };
            sum_mrr = if sum_mrr <= 0xFFFFFFFFFFFFFFFFFFFFFFFFFFFFFFFF - mr {
                sum_mrr + mr
            } else {
                0xFFFFFFFFFFFFFFFFFFFFFFFFFFFFFFFF
            };
            sum_ndcg = if sum_ndcg <= 0xFFFFFFFFFFFFFFFFFFFFFFFFFFFFFFFF - nd {
                sum_ndcg + nd
            } else {
                0xFFFFFFFFFFFFFFFFFFFFFFFFFFFFFFFF
            };
            evaluated += 1;
        }
        w += 1;
    }
    if evaluated == 0 {
        Metrics {
            mean_recall_q16: 0,
            mean_mrr_q16: 0,
            mean_ndcg_q16: 0,
            evaluated,
            skipped,
        }
    } else {
        Metrics {
            mean_recall_q16: sum_recall / (evaluated as u128),
            mean_mrr_q16: sum_mrr / (evaluated as u128),
            mean_ndcg_q16: sum_ndcg / (evaluated as u128),
            evaluated,
            skipped,
        }
    }
}

/// Gains never shrink as grades grow.
proof fn lemma_gain_monotone(a: u64, b: u64)
    requires
        a <= b,
    ensures
        spec_gain_q16(a) <= spec_gain_q16(b),
{
    let ea: nat = if a > 32 { 32nat } else { a as nat };
    let eb: nat = if b > 32 { 32nat } else { b as nat };
    vstd::arithmetic::power2::lemma_pow2_pos(ea);
    vstd::arithmetic::power2::lemma_pow2_pos(eb);
    if ea < eb {
        vstd::arithmetic::power2::lemma_pow2_strictly_increases(ea, eb);
    }
    vstd::arithmetic::mul::lemma_mul_inequality(
        pow2(ea) - 1,
        pow2(eb) - 1,
        65536,
    );
    vstd::arithmetic::mul::lemma_mul_is_commutative(pow2(ea) - 1, 65536);
    vstd::arithmetic::mul::lemma_mul_is_commutative(pow2(eb) - 1, 65536);
}

/// Every discounted-gain term is non-negative.
proof fn lemma_dcg_term_nonneg(g: u64, upto: int)
    requires
        upto >= 1,
    ensures
        spec_gain_q16(g) * 0x100000000 / (spec_log2_q16((upto + 1) as nat) as int) >= 0,
{
    lemma_log2_ge_one((upto + 1) as nat);
    let e: nat = if g > 32 { 32nat } else { g as nat };
    vstd::arithmetic::power2::lemma_pow2_pos(e);
    assert(spec_gain_q16(g) >= 0) by {
        vstd::arithmetic::mul::lemma_mul_inequality(0, pow2(e) - 1, 65536);
    }
    assert(spec_gain_q16(g) * 0x100000000 >= 0) by (nonlinear_arith)
        requires
            spec_gain_q16(g) >= 0,
    ;
    vstd::arithmetic::div_mod::lemma_div_pos_is_pos(
        spec_gain_q16(g) * 0x100000000,
        spec_log2_q16((upto + 1) as nat) as int,
    );
}

/// Ideal discounted gain only grows with the cutoff.
proof fn lemma_dcg_grades_monotone(grades: Seq<u64>, a: int, b: int)
    requires
        0 <= a <= b,
    ensures
        dcg_grades_upto(grades, a) <= dcg_grades_upto(grades, b),
    decreases b - a,
{
    if a < b {
        lemma_dcg_grades_monotone(grades, a, b - 1);
        lemma_dcg_term_nonneg(grades[b - 1], b);
    }
}

/// Rank for rank, a list whose grades never exceed another's accumulates
/// no more discounted gain.
proof fn lemma_dcg_dominated(
    results: Seq<QueryResult>,
    judged: Seq<(u64, u64)>,
    ideal: Seq<u64>,
    upto: int,
)
    requires
        0 <= upto <= results.len(),
        upto <= ideal.len(),
        forall|i: int|
            0 <= i < upto ==> spec_grade(judged, (#[trigger] results[i]).doc_id as u64)
                <= ideal[i],
    ensures
        dcg_upto(results, judged, upto) <= dcg_grades_upto(ideal, upto),
    decreases upto,
{
    if upto > 0 {
        lemma_dcg_dominated(results, judged, ideal, upto - 1);
        let g = spec_grade(judged, results[upto - 1].doc_id as u64);
        let h = ideal[upto - 1];
        lemma_gain_monotone(g, h);
        assert(spec_gain_q16(g) * 0x100000000 <= spec_gain_q16(h) * 0x100000000) by {
            vstd::arithmetic::mul::lemma_mul_inequality(
                spec_gain_q16(g),
                spec_gain_q16(h),
                0x100000000,
            );
            vstd::arithmetic::mul::lemma_mul_is_commutative(spec_gain_q16(g), 0x100000000);
            vstd::arithmetic::mul::lemma_mul_is_commutative(spec_gain_q16(h), 0x100000000);
        }
        lemma_log2_ge_one((upto + 1) as nat);
        vstd::arithmetic::div_mod::lemma_div_is_ordered(
            spec_gain_q16(g) * 0x100000000,
            spec_gain_q16(h) * 0x100000000,
            spec_log2_q16((upto + 1) as nat) as int,
        );
    }
}

/// nDCG@k never exceeds one, shown here for rankings whose grade at each
/// rank is at most the ideal ordering's grade at that rank (in
/// particular, for a ranking that retrieves the judged documents in
/// ideal order).
pub proof fn lemma_ndcg_le_one_dominated(
    results: Seq<QueryResult>,
    judged: Seq<(u64, u64)>,
    ideal: Seq<u64>,
    t: int,
)
    requires
        0 <= results.len() <= t <= ideal.len(),
        forall|i: int|
            0 <= i < results.len() ==> spec_grade(judged, (#[trigger] results[i]).doc_id as u64)
                <= ideal[i],
        dcg_grades_upto(ideal, t) > 0,
    ensures
        dcg_upto(results, judged, results.len() as int) * 65536 / dcg_grades_upto(ideal, t)
            <= 65536,
{
    let n = results.len() as int;
    let idcg = dcg_grades_upto(ideal, t);
    lemma_dcg_dominated(results, judged, ideal, n);
    lemma_dcg_grades_monotone(ideal, n, t);
    assert(dcg_upto(results, judged, n) <= idcg);
    assert(dcg_upto(results, judged, n) * 65536 <= idcg * 65536) by {
        vstd::arithmetic::mul::lemma_mul_inequality(dcg_upto(results, judged, n), idcg, 65536);
        vstd::arithmetic::mul::lemma_mul_is_commutative(dcg_upto(results, judged, n), 65536);
        vstd::arithmetic::mul::lemma_mul_is_commutative(idcg, 65536);
    }
    vstd::arithmetic::div_mod::lemma_div_is_ordered(
        dcg_upto(results, judged, n) * 65536,
        idcg * 65536,
        idcg,
    );
    assert(idcg * 65536 / idcg == 65536) by {
        vstd::arithmetic::mul::lemma_mul_is_commutative(idcg, 65536);
        vstd::arithmetic::div_mod::lemma_div_by_multiple(65536, idcg);
    }
}

} // verus!
