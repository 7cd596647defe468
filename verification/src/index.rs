//! Index builder: consumes loaded documents and produces the inverted
//! index: vocabulary, postings lists, per-document lengths and corpus-wide
//! statistics.
//!
//! Term ids are dense from 0: a term's id is its position in `vocabulary`,
//! assigned in order of first appearance over the corpus.  Each postings
//! list is sorted strictly ascending by document id.  Document length and
//! term frequencies count the tokens of the `text` field alone; `title` is
//! kept for display and does not enter the statistics.
//!
//! The average document length is not stored as a ratio: the index keeps
//! the exact token total, and `avg_doc_len_q16` derives the mean as a
//! Q16.16 fixed-point value.
use vstd::prelude::*;
use crate::BuildError;
use crate::docs::Document;
use crate::tokenize::TokenizerConfig;
use crate::tokenize::count_occ;
use crate::tokenize::firsts;
use crate::tokenize::lemma_count_occ_le;
use crate::tokenize::lemma_count_occ_pos;
use crate::tokenize::lemma_firsts_complete;
use crate::tokenize::lemma_firsts_distinct;
use crate::tokenize::spec_tokens;
use crate::tokenize::find_string;
use crate::tokenize::token_count;
use crate::tokenize::tokenize;
use crate::tokenize::views_of;

verus! {

/// The sum of a sequence of document lengths.
pub open spec fn sum_lengths(s: Seq<usize>) -> int
    decreases s.len(),
{
    if s.len() == 0 {
        0
    } else {
        sum_lengths(s.drop_last()) + s.last()
    }
}

/// The tokens of document `i` of `docs` under `cfg`.
pub open spec fn doc_toks(docs: Seq<Document>, cfg: TokenizerConfig, i: int) -> Seq<Seq<char>> {
    spec_tokens(docs[i].text@, cfg)
}

pub struct InvertedIndex {
    /// The tokenizer configuration the corpus was built with.
    pub config: TokenizerConfig,
    /// Term id (the position) to term.  Terms are distinct.
    pub vocabulary: Vec<String>,
    /// Term id to postings list: `(doc_id, term_frequency)` pairs sorted
    /// strictly ascending by `doc_id`.
    pub postings: Vec<Vec<(usize, usize)>>,
    /// The document records, in id order.
    pub documents: Vec<Document>,
    /// Document id to its token count.
    pub doc_lengths: Vec<usize>,
    /// The exact sum of `doc_lengths`.
    pub total_token_count: u128,
    /// The number of documents; always at least 1.
    pub total_docs: usize,
}

impl InvertedIndex {
    /// Shape invariants: everything a reader of the statistics relies on.
    /// A deserialized index is validated up to here.
    pub open spec fn structural_wf(self) -> bool {
        &&& self.total_docs == self.documents@.len()
        &&& self.doc_lengths@.len() == self.total_docs
        &&& self.total_docs >= 1
        &&& self.vocabulary@.len() == self.postings@.len()
        &&& forall|i: int| 0 <= i < self.documents@.len() ==> (#[trigger] self.documents@[i]).id == i
        &&& forall|a: int, b: int|
            0 <= a < b < self.vocabulary@.len() ==> self.vocabulary@[a]@ != self.vocabulary@[b]@
        &&& forall|j: int| 0 <= j < self.postings@.len() ==> (#[trigger] self.postings@[j])@.len() >= 1
        &&& forall|j: int, p: int, q: int|
            0 <= j < self.postings@.len() && 0 <= p < q < self.postings@[j]@.len()
                ==> (#[trigger] self.postings@[j]@[p]).0 < (#[trigger] self.postings@[j]@[q]).0
        &&& forall|j: int, p: int|
            0 <= j < self.postings@.len() && 0 <= p < (#[trigger] self.postings@[j])@.len() ==> {
                &&& (#[trigger] self.postings@[j]@[p]).0 < self.total_docs
                &&& self.postings@[j]@[p].1 >= 1
                &&& self.postings@[j]@[p].1 <= self.doc_lengths@[self.postings@[j]@[p].0 as int]
            }
        &&& self.total_token_count == sum_lengths(self.doc_lengths@)
    }

    /// Content invariants: the statistics agree with tokenizing the stored
    /// documents.  Holds of every built index.
    pub open spec fn semantic_wf(self) -> bool {
        &&& forall|i: int|
            0 <= i < self.documents@.len() ==> #[trigger] self.doc_lengths@[i] == doc_toks(
                self.documents@,
                self.config,
                i,
            ).len()
        &&& forall|j: int, p: int|
            0 <= j < self.postings@.len() && 0 <= p < (#[trigger] self.postings@[j])@.len()
                ==> (#[trigger] self.postings@[j]@[p]).1 == count_occ(
                doc_toks(self.documents@, self.config, self.postings@[j]@[p].0 as int),
                self.vocabulary@[j]@,
            )
        &&& forall|j: int, i: int|
            0 <= j < self.vocabulary@.len() && 0 <= i < self.documents@.len() && #[trigger] count_occ(
                doc_toks(self.documents@, self.config, i),
                self.vocabulary@[j]@,
            ) > 0 ==> exists|p: int|
                0 <= p < self.postings@[j]@.len() && (#[trigger] self.postings@[j]@[p]).0 == i
        &&& forall|i: int, t: Seq<char>|
            0 <= i < self.documents@.len() && #[trigger] count_occ(
                doc_toks(self.documents@, self.config, i),
                t,
            ) > 0 ==> views_of(self.vocabulary@).contains(t)
    }

    pub open spec fn wf(self) -> bool {
        self.structural_wf() && self.semantic_wf()
    }

    /// Build an inverted index over a corpus.  Fails exactly on an empty
    /// corpus, whose average document length would be undefined.
    pub fn new(documents: Vec<Document>, config: TokenizerConfig) -> (r: Result<
        InvertedIndex,
        BuildError,
    >)
        requires
            forall|i: int| 0 <= i < documents@.len() ==> (#[trigger] documents@[i]).id == i,
        ensures
            match r {
                Ok(ix) => {
                    &&& ix.wf()
                    &&& ix.documents@ == documents@
                    &&& ix.config == config
                    &&& ix.total_docs == documents@.len()
                },
                Err(e) => documents@.len() == 0 && e == BuildError::EmptyCorpus,
            },
    {
        if documents.len() == 0 {
            return Err(BuildError::EmptyCorpus);
        }
        let ghost docs_v = documents@;
        let mut vocabulary: Vec<String> = Vec::new();
        let mut postings: Vec<Vec<(usize, usize)>> = Vec::new();
        let mut doc_lengths: Vec<usize> = Vec::new();
        let mut total: u128 = 0;
        let mut d: usize = 0;
        while d < documents.len()
            invariant
                documents@ == docs_v,
                d <= docs_v.len(),
                vocabulary@.len() == postings@.len(),
                forall|a: int, b: int|
                    0 <= a < b < vocabulary@.len() ==> vocabulary@[a]@ != vocabulary@[b]@,
                doc_lengths@.len() == d,
                forall|i: int|
                    0 <= i < d ==> #[trigger] doc_lengths@[i] == doc_toks(docs_v, config, i).len(),
                total == sum_lengths(doc_lengths@),
                forall|j: int| 0 <= j < postings@.len() ==> (#[trigger] postings@[j])@.len() >= 1,
                forall|j: int, p: int, q: int|
                    0 <= j < postings@.len() && 0 <= p < q < postings@[j]@.len()
                        ==> (#[trigger] postings@[j]@[p]).0 < (#[trigger] postings@[j]@[q]).0,
                forall|j: int, p: int|
                    0 <= j < postings@.len() && 0 <= p < (#[trigger] postings@[j])@.len() ==> {
                        &&& (#[trigger] postings@[j]@[p]).0 < d
                        &&& postings@[j]@[p].1 >= 1
                        &&& postings@[j]@[p].1 == count_occ(
                            doc_toks(docs_v, config, postings@[j]@[p].0 as int),
                            vocabulary@[j]@,
                        )
                        &&& postings@[j]@[p].1 <= doc_lengths@[postings@[j]@[p].0 as int]
                    },
                forall|j: int, i: int|
                    0 <= j < vocabulary@.len() && 0 <= i < d && #[trigger] count_occ(
                        doc_toks(docs_v, config, i),
                        vocabulary@[j]@,
                    ) > 0 ==> exists|p: int|
                        0 <= p < postings@[j]@.len() && (#[trigger] postings@[j]@[p]).0 == i,
                forall|i: int, t: Seq<char>|
                    0 <= i < d && #[trigger] count_occ(doc_toks(docs_v, config, i), t) > 0
                        ==> views_of(vocabulary@).contains(t),
            decreases docs_v.len() - d,
        {
            let tokens = tokenize(documents[d].text.as_str(), &config);
            let ghost toks_d = doc_toks(docs_v, config, d as int);
            proof {
                assert(views_of(tokens@) == toks_d);
            }
            let counts = token_count(&tokens);
            let ghost keys = counts@.map_values(|p: (String, usize)| p.0@);
            proof {
                lemma_firsts_distinct(toks_d);
                assert forall|a: int, b: int| 0 <= a < b < counts@.len() implies counts@[a].0@
                    != counts@[b].0@ by {
                    assert(keys[a] == counts@[a].0@ && keys[b] == counts@[b].0@);
                }
            }
            let len_d: usize = tokens.len();
            let ghost old_dl = doc_lengths@;
            doc_lengths.push(len_d);
            proof {
                assert(doc_lengths@.drop_last() =~= old_dl);
                lemma_sum_lengths_bound(old_dl);
            }
            total = total + (len_d as u128);
            let ghost voc0 = vocabulary@;
            let ghost pl0 = postings@;
            let mut k: usize = 0;
            while k < counts.len()
                invariant
                    documents@ == docs_v,
                    d < docs_v.len(),
                    toks_d == doc_toks(docs_v, config, d as int),
                    keys == counts@.map_values(|p: (String, usize)| p.0@),
                    keys == firsts(toks_d),
                    forall|a: int, b: int| 0 <= a < b < counts@.len() ==> counts@[a].0@
                        != counts@[b].0@,
                    forall|a: int|
                        0 <= a < counts@.len() ==> #[trigger] counts@[a].1 == count_occ(
                            toks_d,
                            counts@[a].0@,
                        ) && counts@[a].1 >= 1,
                    k <= counts@.len(),
                    doc_lengths@.len() == d + 1,
                    doc_lengths@[d as int] == toks_d.len(),
                    forall|i: int|
                        0 <= i < d ==> #[trigger] doc_lengths@[i] == doc_toks(
                            docs_v,
                            config,
                            i,
                        ).len(),
                    total == sum_lengths(doc_lengths@),
                    vocabulary@.len() == postings@.len(),
                    vocabulary@.len() >= voc0.len(),
                    forall|j: int| 0 <= j < voc0.len() ==> vocabulary@[j] == voc0[j],
                    forall|a: int, b: int|
                        0 <= a < b < vocabulary@.len() ==> vocabulary@[a]@ != vocabulary@[b]@,
                    forall|j: int|
                        voc0.len() <= j < vocabulary@.len() ==> exists|m: int|
                            0 <= m < k && counts@[m].0@ == (#[trigger] vocabulary@[j])@,
                    forall|j: int| 0 <= j < postings@.len() ==> (#[trigger] postings@[j])@.len()
                        >= 1,
                    forall|j: int, p: int, q: int|
                        0 <= j < postings@.len() && 0 <= p < q < postings@[j]@.len()
                            ==> (#[trigger] postings@[j]@[p]).0 < (#[trigger] postings@[j]@[q]).0,
                    forall|j: int, p: int|
                        0 <= j < postings@.len() && 0 <= p < (#[trigger] postings@[j])@.len()
                            ==> {
                            &&& (#[trigger] postings@[j]@[p]).0 <= d
                            &&& postings@[j]@[p].1 >= 1
                            &&& postings@[j]@[p].1 == count_occ(
                                doc_toks(docs_v, config, postings@[j]@[p].0 as int),
                                vocabulary@[j]@,
                            )
                            &&& postings@[j]@[p].1 <= doc_lengths@[postings@[j]@[p].0 as int]
                        },
                    forall|j: int|
                        0 <= j < postings@.len() ==> ((exists|p: int|
                            0 <= p < (#[trigger] postings@[j])@.len() && postings@[j]@[p].0 == d)
                            <==> (exists|m: int| 0 <= m < k && counts@[m].0@ == vocabulary@[j]@)),
                    forall|j: int, i: int|
                        0 <= j < vocabulary@.len() && 0 <= i < d && #[trigger] count_occ(
                            doc_toks(docs_v, config, i),
                            vocabulary@[j]@,
                        ) > 0 ==> exists|p: int|
                            0 <= p < postings@[j]@.len() && (#[trigger] postings@[j]@[p]).0 == i,
                    forall|i: int, t: Seq<char>|
                        0 <= i < d && #[trigger] count_occ(doc_toks(docs_v, config, i), t) > 0
                            ==> views_of(vocabulary@).contains(t),
                    forall|m: int|
                        0 <= m < k ==> views_of(vocabulary@).contains(
                            (#[trigger] counts@[m]).0@,
                        ),
                decreases counts@.len() - k,
            {
                let term = &counts[k].0;
                let f: usize = counts[k].1;
                proof {
                    lemma_count_occ_le(toks_d, term@);
                }
                match find_string(&vocabulary, term) {
                    Some(j) => {
                        proof {
                            // This term was not seen earlier in this document's
                            // counts, so list j has no entry for doc d yet.
                            assert(keys[k as int] == term@);
                            if exists|p: int|
                                0 <= p < postings@[j as int]@.len() && postings@[j as int]@[p].0
                                    == d {
                                let m = choose|m: int|
                                    0 <= m < k && counts@[m].0@ == vocabulary@[j as int]@;
                                assert(counts@[m].0@ == term@);
                                assert(false);
                            }
                        }
                        let ghost oldpj = postings@[j as int]@;
                        let ghost pl_before = postings@;
                        postings[j].push((d, f));
                        proof {
                            assert(postings@[j as int]@ =~= oldpj.push((d, f)));
                            assert(forall|jj: int|
                                0 <= jj < postings@.len() && jj != j ==> postings@[jj]
                                    == pl_before[jj]);
                            assert(views_of(vocabulary@)[j as int] == term@);
                            assert forall|m: int|
                                0 <= m < k + 1 implies views_of(vocabulary@).contains(
                                (#[trigger] counts@[m]).0@,
                            ) by {
                                if m == k {
                                    assert(views_of(vocabulary@)[j as int] == counts@[m].0@);
                                }
                            }
                            assert forall|jj: int, i: int|
                                0 <= jj < vocabulary@.len() && 0 <= i < d && #[trigger] count_occ(
                                    doc_toks(docs_v, config, i),
                                    vocabulary@[jj]@,
                                ) > 0 implies exists|p: int|
                                0 <= p < postings@[jj]@.len() && (#[trigger] postings@[jj]@[p]).0
                                    == i by {
                                let p0 = choose|p: int|
                                    0 <= p < pl_before[jj]@.len() && (#[trigger] pl_before[jj]@[p]).0
                                        == i;
                                if jj == j {
                                    assert(postings@[jj]@[p0] == oldpj[p0]);
                                } else {
                                    assert(postings@[jj]@[p0] == pl_before[jj]@[p0]);
                                }
                            }
                            assert forall|jj: int|
                                0 <= jj < postings@.len() implies ((exists|p: int|
                                0 <= p < (#[trigger] postings@[jj])@.len() && postings@[jj]@[p].0
                                    == d) <==> (exists|m: int|
                                0 <= m < k + 1 && counts@[m].0@ == vocabulary@[jj]@)) by {
                                if jj == j {
                                    assert(postings@[jj]@[postings@[jj]@.len() - 1].0 == d);
                                    assert(counts@[k as int].0@ == vocabulary@[jj]@);
                                } else {
                                    if exists|p: int|
                                        0 <= p < postings@[jj]@.len() && postings@[jj]@[p].0
                                            == d {
                                        let m = choose|m: int|
                                            0 <= m < k && counts@[m].0@ == vocabulary@[jj]@;
                                        assert(0 <= m < k + 1 && counts@[m].0@
                                            == vocabulary@[jj]@);
                                    }
                                    if exists|m: int|
                                        0 <= m < k + 1 && counts@[m].0@ == vocabulary@[jj]@ {
                                        let m = choose|m: int|
                                            0 <= m < k + 1 && counts@[m].0@ == vocabulary@[jj]@;
                                        if m == k {
                                            assert(vocabulary@[jj]@ == term@);
                                            assert(vocabulary@[j as int]@ == term@);
                                            assert(jj == j);
                                        }
                                    }
                                }
                            }
                        }
                    },
                    None => {
                        let ghost oldvoc = vocabulary@;
                        let ghost oldpl = postings@;
                        vocabulary.push(term.clone());
                        let mut nl: Vec<(usize, usize)> = Vec::new();
                        nl.push((d, f));
                        postings.push(nl);
                        proof {
                            assert(views_of(vocabulary@) =~= views_of(oldvoc).push(term@));
                            assert forall|t: Seq<char>| views_of(oldvoc).contains(t) implies
                                views_of(vocabulary@).contains(t) by {
                                let a = choose|a: int|
                                    0 <= a < views_of(oldvoc).len() && views_of(oldvoc)[a] == t;
                                assert(views_of(vocabulary@)[a] == t);
                            }
                            assert(views_of(vocabulary@)[vocabulary@.len() - 1] == term@);
                            assert(views_of(vocabulary@).contains(term@));
                            assert forall|m: int|
                                0 <= m < k + 1 implies views_of(vocabulary@).contains(
                                (#[trigger] counts@[m]).0@,
                            ) by {
                                if m < k {
                                    assert(views_of(oldvoc).contains(counts@[m].0@));
                                }
                            }
                            assert forall|jj: int, i: int|
                                0 <= jj < vocabulary@.len() && 0 <= i < d && #[trigger] count_occ(
                                    doc_toks(docs_v, config, i),
                                    vocabulary@[jj]@,
                                ) > 0 implies exists|p: int|
                                0 <= p < postings@[jj]@.len() && (#[trigger] postings@[jj]@[p]).0
                                    == i by {
                                if jj < oldpl.len() {
                                    assert(vocabulary@[jj] == oldvoc[jj]);
                                    let p0 = choose|p: int|
                                        0 <= p < oldpl[jj]@.len() && (#[trigger] oldpl[jj]@[p]).0
                                            == i;
                                    assert(postings@[jj]@[p0] == oldpl[jj]@[p0]);
                                } else {
                                    // A brand-new term occurs in no earlier document.
                                    assert(vocabulary@[jj]@ == term@);
                                    assert(views_of(oldvoc).contains(term@));
                                    let a = choose|a: int|
                                        0 <= a < views_of(oldvoc).len() && views_of(oldvoc)[a]
                                            == term@;
                                    assert(oldvoc[a]@ == term@);
                                    assert(false);
                                }
                            }
                            assert forall|jj: int|
                                0 <= jj < postings@.len() implies ((exists|p: int|
                                0 <= p < (#[trigger] postings@[jj])@.len() && postings@[jj]@[p].0
                                    == d) <==> (exists|m: int|
                                0 <= m < k + 1 && counts@[m].0@ == vocabulary@[jj]@)) by {
                                if jj == postings@.len() - 1 {
                                    assert(postings@[jj]@[0].0 == d);
                                    assert(counts@[k as int].0@ == vocabulary@[jj]@);
                                } else {
                                    assert(postings@[jj] == oldpl[jj]);
                                    assert(vocabulary@[jj] == oldvoc[jj]);
                                    if exists|p: int|
                                        0 <= p < postings@[jj]@.len() && postings@[jj]@[p].0
                                            == d {
                                        let m = choose|m: int|
                                            0 <= m < k && counts@[m].0@ == vocabulary@[jj]@;
                                        assert(0 <= m < k + 1 && counts@[m].0@
                                            == vocabulary@[jj]@);
                                    }
                                    if exists|m: int|
                                        0 <= m < k + 1 && counts@[m].0@ == vocabulary@[jj]@ {
                                        let m = choose|m: int|
                                            0 <= m < k + 1 && counts@[m].0@ == vocabulary@[jj]@;
                                        if m == k {
                                            assert(oldvoc[jj]@ == term@);
                                            assert(false);
                                        }
                                    }
                                }
                            }
                        }
                    },
                }
                k += 1;
            }
            proof {
                // Every term of this document is now in the vocabulary, and
                // every vocabulary term occurring in it has an entry for d.
                assert forall|i: int, t: Seq<char>|
                    0 <= i < d + 1 && #[trigger] count_occ(doc_toks(docs_v, config, i), t)
                        > 0 implies views_of(vocabulary@).contains(t) by {
                    if i == d {
                        lemma_count_occ_pos(toks_d, t);
                        lemma_firsts_complete(toks_d, t);
                        let m = choose|m: int| 0 <= m < keys.len() && keys[m] == t;
                        assert(counts@[m].0@ == t);
                    }
                }
                assert forall|j: int, i: int|
                    0 <= j < vocabulary@.len() && 0 <= i < d + 1 && #[trigger] count_occ(
                        doc_toks(docs_v, config, i),
                        vocabulary@[j]@,
                    ) > 0 implies exists|p: int|
                    0 <= p < postings@[j]@.len() && (#[trigger] postings@[j]@[p]).0 == i by {
                    if i == d {
                        let t = vocabulary@[j]@;
                        lemma_count_occ_pos(toks_d, t);
                        lemma_firsts_complete(toks_d, t);
                        let m = choose|m: int| 0 <= m < keys.len() && keys[m] == t;
                        assert(counts@[m].0@ == t);
                    }
                }
            }
            d += 1;
        }
        proof {
            lemma_sum_lengths_nonneg(doc_lengths@);
        }
        Ok(
            InvertedIndex {
                config,
                vocabulary,
                postings,
                documents,
                doc_lengths,
                total_token_count: total,
                total_docs: d,
            },
        )
    }
}

pub proof fn lemma_sum_lengths_nonneg(s: Seq<usize>)
    ensures
        sum_lengths(s) >= 0,
    decreases s.len(),
{
    if s.len() > 0 {
        lemma_sum_lengths_nonneg(s.drop_last());
    }
}

/// The token total of a corpus fits comfortably in a `u128`.
proof fn lemma_sum_lengths_bound(s: Seq<usize>)
    ensures
        sum_lengths(s) <= s.len() * 0xFFFF_FFFF_FFFF_FFFFu128,
    decreases s.len(),
{
    if s.len() > 0 {
        lemma_sum_lengths_bound(s.drop_last());
        assert(s.len() * 0xFFFF_FFFF_FFFF_FFFFu128 == (s.len() - 1)
            * 0xFFFF_FFFF_FFFF_FFFFu128 + 0xFFFF_FFFF_FFFF_FFFFu128) by (nonlinear_arith);
        assert(s.last() <= 0xFFFF_FFFF_FFFF_FFFFu128);
    }
}

/// The mean document length in Q16.16: the exact token total, scaled,
/// divided by the document count (well-defined: an index always holds at
/// least one document).
impl InvertedIndex {
    pub fn avg_doc_len_q16(&self) -> (r: u128)
        requires
            self.structural_wf(),
            self.total_token_count < 0x10000000000000000000000000000,
        ensures
            r == (self.total_token_count * 65536) as int / (self.total_docs as int),
    {
        proof {
            vstd::arithmetic::mul::lemma_mul_inequality(
                self.total_token_count as int,
                0xFFFFFFFFFFFFFFFFFFFFFFFFFFFFint,
                65536,
            );
            vstd::arithmetic::mul::lemma_mul_is_commutative(self.total_token_count as int, 65536);
            vstd::arithmetic::mul::lemma_mul_is_commutative(0xFFFFFFFFFFFFFFFFFFFFFFFFFFFFint, 65536);
        }
        (self.total_token_count * 65536) / (self.total_docs as u128)
    }
}

} // verus!
