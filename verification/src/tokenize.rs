//! Tokenizer: turns raw text into a normalized sequence of terms.
//!
//! A token is a maximal run of word characters (ASCII letters, digits and
//! underscore); every other character is a delimiter and is discarded.
//! ASCII letters are folded to lower case before emission.  After
//! normalization two optional filters apply: tokens shorter than
//! `min_token_len` are dropped, and tokens found in the stopword list are
//! dropped.  Tokenization is a pure function of the text and the
//! configuration.
use vstd::prelude::*;
use vstd::string::StrSliceExecFns;

verus! {

/// The sequence of views of a vector of strings.
pub open spec fn views_of(ts: Seq<String>) -> Seq<Seq<char>> {
    ts.map_values(|t: String| t@)
}

/// Word characters: ASCII letters, ASCII digits and underscore.
pub open spec fn is_word_char(c: char) -> bool {
    ('a' as u32 <= c as u32 && c as u32 <= 'z' as u32) || ('A' as u32 <= c as u32 && c as u32
        <= 'Z' as u32) || ('0' as u32 <= c as u32 && c as u32 <= '9' as u32) || c == '_'
}

/// Case folding: ASCII upper-case letters map to lower case, all other
/// characters are unchanged.
pub open spec fn fold_char(c: char) -> char {
    if 'A' as u32 <= c as u32 && c as u32 <= 'Z' as u32 {
        ((c as u32 + 32) as u8) as char
    } else {
        c
    }
}

/// One step of the tokenizer automaton: `toks` are the finished tokens,
/// `cur` is the (possibly empty) run of word characters read so far.
pub open spec fn tok_step(toks: Seq<Seq<char>>, cur: Seq<char>, c: char) -> (Seq<Seq<char>>, Seq<
    char,
>) {
    if is_word_char(c) {
        (toks, cur.push(fold_char(c)))
    } else if cur.len() > 0 {
        (toks.push(cur), Seq::empty())
    } else {
        (toks, cur)
    }
}

/// Folding the automaton over a text, left to right.
pub open spec fn tok_fold(s: Seq<char>) -> (Seq<Seq<char>>, Seq<char>)
    decreases s.len(),
{
    if s.len() == 0 {
        (Seq::<Seq<char>>::empty(), Seq::<char>::empty())
    } else {
        let prev = tok_fold(s.drop_last());
        tok_step(prev.0, prev.1, s.last())
    }
}

/// All maximal word-character runs of a text, folded to lower case, in
/// order of appearance.
pub open spec fn raw_tokens(s: Seq<char>) -> Seq<Seq<char>> {
    let st = tok_fold(s);
    if st.1.len() > 0 {
        st.0.push(st.1)
    } else {
        st.0
    }
}

/// Tokenizer configuration.  It travels with the index so that queries are
/// tokenized exactly as the corpus was at build time.
pub struct TokenizerConfig {
    /// Tokens shorter than this many characters are dropped.
    pub min_token_len: usize,
    /// Tokens equal to any of these strings are dropped.
    pub stopwords: Vec<String>,
}

impl TokenizerConfig {
    /// Whether a normalized token passes the length and stopword filters.
    pub open spec fn keeps(self, t: Seq<char>) -> bool {
        t.len() >= self.min_token_len && !views_of(self.stopwords@).contains(t)
    }
}

/// The kept tokens of `ts`, in order.
pub open spec fn filter_kept(ts: Seq<Seq<char>>, cfg: TokenizerConfig) -> Seq<Seq<char>>
    decreases ts.len(),
{
    if ts.len() == 0 {
        Seq::<Seq<char>>::empty()
    } else {
        let prev = filter_kept(ts.drop_last(), cfg);
        if cfg.keeps(ts.last()) {
            prev.push(ts.last())
        } else {
            prev
        }
    }
}

/// The full tokenizer: maximal word runs, folded, then filtered.
pub open spec fn spec_tokens(s: Seq<char>, cfg: TokenizerConfig) -> Seq<Seq<char>> {
    filter_kept(raw_tokens(s), cfg)
}

fn is_word_char_exec(c: char) -> (r: bool)
    ensures
        r == is_word_char(c),
{
    let v: u32 = c as u32;
    proof {
        assert('a' as u32 == 97 && 'z' as u32 == 122);
        assert('A' as u32 == 65 && 'Z' as u32 == 90);
        assert('0' as u32 == 48 && '9' as u32 == 57);
        assert('_' as u32 == 95);
        assert(c as u32 == 95 ==> c == '_');
    }
    (97 <= v && v <= 122) || (65 <= v && v <= 90) || (48 <= v && v <= 57) || v == 95
}

fn fold_char_exec(c: char) -> (r: char)
    ensures
        r == fold_char(c),
{
    let v: u32 = c as u32;
    proof {
        assert('A' as u32 == 65 && 'Z' as u32 == 90);
    }
    if 65 <= v && v <= 90 {
        ((v + 32) as u8) as char
    } else {
        c
    }
}

/// Relies on `String`'s `FromIterator` implementation over `char`:
/// collecting an iterator of characters yields the string of exactly those
/// characters, in order.
#[verifier::external_body]
fn string_from_chars(cs: &Vec<char>) -> (r: String)
    ensures
        r@ == cs@,
{
    cs.iter().collect()
}

/// Whether some string of `v` has view `t`.
pub fn contains_string(v: &Vec<String>, t: &String) -> (r: bool)
    ensures
        r == views_of(v@).contains(t@),
{
    let mut i: usize = 0;
    while i < v.len()
        invariant
            i <= v@.len(),
            forall|j: int| 0 <= j < i ==> v@[j]@ != t@,
        decreases v@.len() - i,
    {
        if v[i].eq(t) {
            assert(views_of(v@)[i as int] == v@[i as int]@);
            return true;
        }
        i += 1;
    }
    assert forall|j: int| 0 <= j < views_of(v@).len() implies views_of(v@)[j] != t@ by {
        assert(views_of(v@)[j] == v@[j]@);
    }
    false
}

/// The index of the first string of `v` whose view is `t`, if any.
pub fn find_string(v: &Vec<String>, t: &String) -> (r: Option<usize>)
    ensures
        match r {
            Some(j) => j < v@.len() && v@[j as int]@ == t@ && forall|p: int|
                0 <= p < j ==> v@[p]@ != t@,
            None => forall|j: int| 0 <= j < v@.len() ==> v@[j]@ != t@,
        },
{
    let mut i: usize = 0;
    while i < v.len()
        invariant
            i <= v@.len(),
            forall|j: int| 0 <= j < i ==> v@[j]@ != t@,
        decreases v@.len() - i,
    {
        if v[i].eq(t) {
            return Some(i);
        }
        i += 1;
    }
    None
}

fn keeps_exec(cfg: &TokenizerConfig, t: &String) -> (r: bool)
    ensures
        r == cfg.keeps(t@),
{
    t.as_str().unicode_len() >= cfg.min_token_len && !contains_string(&cfg.stopwords, t)
}

/// Tokenize a text under a configuration.  The result is exactly the
/// mathematical tokenization `spec_tokens`.
pub fn tokenize(text: &str, cfg: &TokenizerConfig) -> (r: Vec<String>)
    ensures
        views_of(r@) == spec_tokens(text@, *cfg),
{
    let n: usize = text.unicode_len();
    let mut raw: Vec<String> = Vec::new();
    let mut cur: Vec<char> = Vec::new();
    let mut i: usize = 0;
    while i < n
        invariant
            n == text@.len(),
            i <= n,
            views_of(raw@) == tok_fold(text@.take(i as int)).0,
            cur@ == tok_fold(text@.take(i as int)).1,
        decreases n - i,
    {
        let ghost prev = tok_fold(text@.take(i as int));
        let c = text.get_char(i);
        proof {
            assert(text@.take(i + 1).drop_last() =~= text@.take(i as int));
            assert(text@.take(i + 1).last() == c);
            assert(tok_fold(text@.take(i + 1)) == tok_step(prev.0, prev.1, c));
        }
        if is_word_char_exec(c) {
            cur.push(fold_char_exec(c));
        } else if cur.len() > 0 {
            let s = string_from_chars(&cur);
            let ghost old_raw = raw@;
            raw.push(s);
            cur = Vec::new();
            proof {
                assert(views_of(raw@) =~= views_of(old_raw).push(s@));
            }
        }
        i += 1;
    }
    proof {
        assert(text@.take(n as int) =~= text@);
    }
    if cur.len() > 0 {
        let s = string_from_chars(&cur);
        let ghost old_raw = raw@;
        raw.push(s);
        proof {
            assert(views_of(raw@) =~= views_of(old_raw).push(s@));
        }
    }
    assert(views_of(raw@) == raw_tokens(text@));
    // Filter pass: keep tokens that pass the length and stopword filters.
    let mut result: Vec<String> = Vec::new();
    let mut k: usize = 0;
    while k < raw.len()
        invariant
            k <= raw@.len(),
            views_of(raw@) == raw_tokens(text@),
            views_of(result@) == filter_kept(views_of(raw@).take(k as int), *cfg),
        decreases raw@.len() - k,
    {
        let ghost rv = views_of(raw@);
        proof {
            assert(rv.take(k + 1).drop_last() =~= rv.take(k as int));
            assert(rv.take(k + 1).last() == rv[k as int]);
            assert(rv[k as int] == raw@[k as int]@);
        }
        let t = &raw[k];
        if keeps_exec(cfg, t) {
            let ghost old_res = result@;
            result.push(t.clone());
            proof {
                assert(views_of(result@) =~= views_of(old_res).push(t@));
            }
        }
        k += 1;
    }
    proof {
        assert(views_of(raw@).take(raw@.len() as int) =~= views_of(raw@));
    }
    result
}

/// How many times token `t` occurs in `ts`.
pub open spec fn count_occ(ts: Seq<Seq<char>>, t: Seq<char>) -> nat
    decreases ts.len(),
{
    if ts.len() == 0 {
        0
    } else {
        count_occ(ts.drop_last(), t) + if ts.last() == t {
            1nat
        } else {
            0nat
        }
    }
}

/// The distinct elements of `ts`, in order of first appearance.
pub open spec fn firsts(ts: Seq<Seq<char>>) -> Seq<Seq<char>>
    decreases ts.len(),
{
    if ts.len() == 0 {
        Seq::<Seq<char>>::empty()
    } else {
        let prev = firsts(ts.drop_last());
        if prev.contains(ts.last()) {
            prev
        } else {
            prev.push(ts.last())
        }
    }
}

pub proof fn lemma_count_occ_le(ts: Seq<Seq<char>>, t: Seq<char>)
    ensures
        count_occ(ts, t) <= ts.len(),
    decreases ts.len(),
{
    if ts.len() > 0 {
        lemma_count_occ_le(ts.drop_last(), t);
    }
}

/// A token occurs in `ts` exactly when its count is positive.
pub proof fn lemma_count_occ_pos(ts: Seq<Seq<char>>, t: Seq<char>)
    ensures
        count_occ(ts, t) > 0 <==> ts.contains(t),
    decreases ts.len(),
{
    if ts.len() > 0 {
        lemma_count_occ_pos(ts.drop_last(), t);
        if ts.last() == t {
            assert(ts[ts.len() - 1] == t);
        } else {
            assert(ts.contains(t) ==> ts.drop_last().contains(t)) by {
                if ts.contains(t) {
                    let i = choose|i: int| 0 <= i < ts.len() && ts[i] == t;
                    assert(i < ts.len() - 1);
                    assert(ts.drop_last()[i] == t);
                }
            }
            assert(ts.drop_last().contains(t) ==> ts.contains(t)) by {
                if ts.drop_last().contains(t) {
                    let i = choose|i: int| 0 <= i < ts.drop_last().len() && ts.drop_last()[i] == t;
                    assert(ts[i] == t);
                }
            }
        }
    }
}

/// `firsts` holds exactly the elements of `ts`.
pub proof fn lemma_firsts_complete(ts: Seq<Seq<char>>, t: Seq<char>)
    ensures
        firsts(ts).contains(t) <==> ts.contains(t),
    decreases ts.len(),
{
    if ts.len() > 0 {
        lemma_firsts_complete(ts.drop_last(), t);
        let prev = firsts(ts.drop_last());
        if ts.contains(t) {
            let i = choose|i: int| 0 <= i < ts.len() && ts[i] == t;
            if i < ts.len() - 1 {
                assert(ts.drop_last()[i] == t);
                assert(ts.drop_last().contains(t));
                if !prev.contains(ts.last()) {
                    let j = choose|j: int| 0 <= j < prev.len() && prev[j] == t;
                    assert(prev.push(ts.last())[j] == t);
                }
            } else {
                if prev.contains(ts.last()) {
                } else {
                    assert(prev.push(ts.last()).last() == t);
                }
            }
        }
        if firsts(ts).contains(t) {
            if !prev.contains(ts.last()) {
                let j = choose|j: int| 0 <= j < firsts(ts).len() && firsts(ts)[j] == t;
                if j < prev.len() {
                    assert(prev[j] == t);
                    assert(ts.drop_last().contains(t));
                    let i = choose|i: int|
                        0 <= i < ts.drop_last().len() && ts.drop_last()[i] == t;
                    assert(ts[i] == t);
                } else {
                    assert(t == ts.last());
                    assert(ts[ts.len() - 1] == t);
                }
            } else {
                assert(ts.drop_last().contains(t));
                let i = choose|i: int| 0 <= i < ts.drop_last().len() && ts.drop_last()[i] == t;
                assert(ts[i] == t);
            }
        }
    }
}

/// `firsts` has no duplicates.
pub proof fn lemma_firsts_distinct(ts: Seq<Seq<char>>)
    ensures
        forall|p: int, q: int|
            0 <= p < q < firsts(ts).len() ==> firsts(ts)[p] != firsts(ts)[q],
    decreases ts.len(),
{
    if ts.len() > 0 {
        lemma_firsts_distinct(ts.drop_last());
        let prev = firsts(ts.drop_last());
        if !prev.contains(ts.last()) {
            assert forall|p: int, q: int|
                0 <= p < q < firsts(ts).len() implies firsts(ts)[p] != firsts(ts)[q] by {
                if q < prev.len() {
                } else {
                    assert(firsts(ts)[q] == ts.last());
                    assert(firsts(ts)[p] == prev[p]);
                    assert(!prev.contains(ts.last()));
                    if prev[p] == ts.last() {
                        assert(prev.contains(ts.last()));
                    }
                }
            }
        }
    }
}

/// Per-document term-frequency counting: the result pairs each distinct
/// token of `tokens`, in order of first appearance, with the number of its
/// occurrences.
pub fn token_count(tokens: &Vec<String>) -> (r: Vec<(String, usize)>)
    ensures
        r@.map_values(|p: (String, usize)| p.0@) == firsts(views_of(tokens@)),
        forall|i: int|
            0 <= i < r@.len() ==> #[trigger] r@[i].1 == count_occ(views_of(tokens@), r@[i].0@),
        forall|i: int| 0 <= i < r@.len() ==> #[trigger] r@[i].1 >= 1,
{
    let ghost tv = views_of(tokens@);
    let mut r: Vec<(String, usize)> = Vec::new();
    let mut i: usize = 0;
    while i < tokens.len()
        invariant
            i <= tokens@.len(),
            tv == views_of(tokens@),
            r@.map_values(|p: (String, usize)| p.0@) == firsts(tv.take(i as int)),
            forall|a: int|
                0 <= a < r@.len() ==> #[trigger] r@[a].1 == count_occ(tv.take(i as int), r@[a].0@),
            forall|a: int| 0 <= a < r@.len() ==> #[trigger] r@[a].1 >= 1,
            forall|a: int, b: int| 0 <= a < b < r@.len() ==> r@[a].0@ != r@[b].0@,
        decreases tokens@.len() - i,
    {
        let ghost keys = r@.map_values(|p: (String, usize)| p.0@);
        proof {
            assert(tv.take(i + 1).drop_last() =~= tv.take(i as int));
            assert(tv.take(i + 1).last() == tv[i as int]);
            assert(tv[i as int] == tokens@[i as int]@);
            lemma_count_occ_le(tv.take(i as int), tv[i as int]);
            assert forall|a: int| 0 <= a < r@.len() implies (keys.contains(r@[a].0@)) by {
                assert(keys[a] == r@[a].0@);
            }
        }
        let t = &tokens[i];
        let pos = find_key(&r, t);
        match pos {
            Some(j) => {
                proof {
                    assert(keys[j as int] == t@);
                    assert(keys.contains(t@));
                }
                let c: usize = r[j].1;
                let k = r[j].0.clone();
                proof {
                    lemma_count_occ_le(tv.take(i + 1), t@);
                }
                r[j] = (k, c + 1);
                proof {
                    assert(r@.map_values(|p: (String, usize)| p.0@) =~= keys);
                }
            },
            None => {
                proof {
                    if keys.contains(t@) {
                        let a = choose|a: int| 0 <= a < keys.len() && keys[a] == t@;
                        assert(r@[a].0@ == t@);
                    }
                }
                r.push((t.clone(), 1));
                proof {
                    assert(r@.map_values(|p: (String, usize)| p.0@) =~= keys.push(t@));
                    assert forall|a: int|
                        0 <= a < r@.len() implies #[trigger] r@[a].1 == count_occ(
                        tv.take(i + 1),
                        r@[a].0@,
                    ) by {
                        if a < r@.len() - 1 {
                            assert(r@[a].0@ != t@);
                        } else {
                            lemma_count_occ_pos(tv.take(i as int), t@);
                            assert(!tv.take(i as int).contains(t@)) by {
                                lemma_firsts_complete(tv.take(i as int), t@);
                            }
                        }
                    }
                }
            },
        }
        i += 1;
    }
    proof {
        assert(tv.take(tokens@.len() as int) =~= tv);
    }
    r
}

/// The index of the first pair of `r` whose key has view `t`, if any.
fn find_key(r: &Vec<(String, usize)>, t: &String) -> (res: Option<usize>)
    ensures
        match res {
            Some(j) => j < r@.len() && r@[j as int].0@ == t@,
            None => forall|j: int| 0 <= j < r@.len() ==> r@[j].0@ != t@,
        },
{
    let mut i: usize = 0;
    while i < r.len()
        invariant
            i <= r@.len(),
            forall|j: int| 0 <= j < i ==> r@[j].0@ != t@,
        decreases r@.len() - i,
    {
        if r[i].0.eq(t) {
            return Some(i);
        }
        i += 1;
    }
    None
}

} // verus!
