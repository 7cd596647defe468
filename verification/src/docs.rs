//! Document store: loads a corpus, one JSON record per non-blank line,
//! into an ordered collection of documents with dense, 0-based ids.
//!
//! Reading the corpus file from disk is the caller's concern; this module
//! receives the file's lines and owns everything after that: blank-line
//! skipping, record parsing, id assignment, and the parse-error report.
use vstd::prelude::*;
use vstd::string::StrSliceExecFns;
use crate::CorpusError;

verus! {

/// A corpus document.  Ids are assigned sequentially from 0 in corpus
/// order and are dense: `id` always equals the document's position.
pub struct Document {
    pub id: usize,
    pub title: String,
    pub text: String,
}

/// ASCII whitespace; a line whose characters all satisfy this is blank.
pub open spec fn is_space_char(c: char) -> bool {
    c == ' ' || c == '\t' || c == '\r' || c == '\n' || c as u32 == 11 || c as u32 == 12
}

/// A line is blank when it has no non-whitespace character.
pub open spec fn is_blank(s: Seq<char>) -> bool {
    forall|i: int| 0 <= i < s.len() ==> is_space_char(#[trigger] s[i])
}

/// Whether a corpus line parses as a JSON document record.
/// Interpreted by `parse_record_line` below, which decides it by calling
/// `serde_json`; the result depends on the line's characters alone.
pub uninterp spec fn json_record_ok(s: Seq<char>) -> bool;

/// The `title` field of a well-formed record line (empty when absent or
/// not a string).
pub uninterp spec fn json_record_title(s: Seq<char>) -> Seq<char>;

/// The `text` field of a well-formed record line (empty when absent or
/// not a string).
pub uninterp spec fn json_record_text(s: Seq<char>) -> Seq<char>;

/// Relies on `serde_json::from_str::<Value>` to decide whether a line is
/// a single JSON value, and on `Value::get` and `Value::as_str` to read
/// the `title` and `text` string fields, absent or non-string fields
/// reading as the empty string.  The outcome is a function of the line's
/// characters alone.
#[verifier::external_body]
fn parse_record_line(line: &str) -> (r: Option<(String, String)>)
    ensures
        r is Some <==> json_record_ok(line@),
        r matches Some(p) ==> p.0@ == json_record_title(line@) && p.1@ == json_record_text(line@),
{
    match serde_json::from_str::<serde_json::Value>(line) {
        Ok(v) => Some(
            (
                v.get("title").and_then(|x| x.as_str()).unwrap_or("").to_string(),
                v.get("text").and_then(|x| x.as_str()).unwrap_or("").to_string(),
            ),
        ),
        Err(_) => None,
    }
}

/// The non-blank lines of a corpus, in order: these carry the records.
pub open spec fn record_lines(lines: Seq<Seq<char>>) -> Seq<Seq<char>>
    decreases lines.len(),
{
    if lines.len() == 0 {
        Seq::<Seq<char>>::empty()
    } else {
        let prev = record_lines(lines.drop_last());
        if is_blank(lines.last()) {
            prev
        } else {
            prev.push(lines.last())
        }
    }
}

pub fn is_blank_exec(s: &str) -> (r: bool)
    ensures
        r == is_blank(s@),
{
    let n: usize = s.unicode_len();
    let mut i: usize = 0;
    while i < n
        invariant
            n == s@.len(),
            i <= n,
            forall|j: int| 0 <= j < i ==> is_space_char(#[trigger] s@[j]),
        decreases n - i,
    {
        let c = s.get_char(i);
        let v: u32 = c as u32;
        if !(v == 32 || v == 9 || v == 13 || v == 10 || v == 11 || v == 12) {
            proof {
                assert(' ' as u32 == 32 && '\t' as u32 == 9 && '\r' as u32 == 13 && '\n' as u32
                    == 10);
            }
            return false;
        }
        i += 1;
    }
    true
}

/// Load a corpus given as lines of text.  Blank lines are skipped and do
/// not consume an id; every other line must parse as a JSON record, else
/// the load fails with the 1-based number of the first offending line.
pub fn load_documents(lines: &Vec<String>) -> (r: Result<Vec<Document>, CorpusError>)
    ensures
        match r {
            Ok(docs) => {
                let recs = record_lines(crate::tokenize::views_of(lines@));
                &&& forall|i: int|
                    0 <= i < lines@.len() && !is_blank(#[trigger] lines@[i]@) ==> json_record_ok(
                        lines@[i]@,
                    )
                &&& docs@.len() == recs.len()
                &&& forall|i: int| 0 <= i < docs@.len() ==> (#[trigger] docs@[i]).id == i
                &&& forall|i: int|
                    0 <= i < docs@.len() ==> (#[trigger] docs@[i]).title@ == json_record_title(
                        recs[i],
                    ) && docs@[i].text@ == json_record_text(recs[i])
            },
            Err(e) => {
                &&& e matches CorpusError::RecordParse { line } && {
                    &&& 1 <= line <= lines@.len()
                    &&& !is_blank(lines@[line - 1]@)
                    &&& !json_record_ok(lines@[line - 1]@)
                    &&& forall|j: int|
                        0 <= j < line - 1 && !is_blank(#[trigger] lines@[j]@) ==> json_record_ok(
                            lines@[j]@,
                        )
                }
            },
        },
{
    let ghost lv = crate::tokenize::views_of(lines@);
    let mut docs: Vec<Document> = Vec::new();
    let mut i: usize = 0;
    while i < lines.len()
        invariant
            i <= lines@.len(),
            lv == crate::tokenize::views_of(lines@),
            docs@.len() == record_lines(lv.take(i as int)).len(),
            forall|j: int| 0 <= j < i && !is_blank(#[trigger] lv[j]) ==> json_record_ok(lv[j]),
            forall|a: int| 0 <= a < docs@.len() ==> (#[trigger] docs@[a]).id == a,
            forall|a: int|
                0 <= a < docs@.len() ==> (#[trigger] docs@[a]).title@ == json_record_title(
                    record_lines(lv.take(i as int))[a],
                ) && docs@[a].text@ == json_record_text(record_lines(lv.take(i as int))[a]),
        decreases lines@.len() - i,
    {
        let ghost prev = record_lines(lv.take(i as int));
        proof {
            assert(lv.take(i + 1).drop_last() =~= lv.take(i as int));
            assert(lv.take(i + 1).last() == lv[i as int]);
            assert(lv[i as int] == lines@[i as int]@);
        }
        let line = &lines[i];
        if !is_blank_exec(line.as_str()) {
            match parse_record_line(line.as_str()) {
                Some(p) => {
                    let id: usize = docs.len();
                    let (title, text) = p;
                    docs.push(Document { id, title, text });
                    proof {
                        assert(record_lines(lv.take(i + 1)) =~= prev.push(lv[i as int]));
                    }
                },
                None => {
                    proof {
                        assert(lv[i as int] == lines@[i as int]@);
                        assert forall|j: int|
                            0 <= j < i && !is_blank(#[trigger] lines@[j]@) implies json_record_ok(
                            lines@[j]@,
                        ) by {
                            assert(lv[j] == lines@[j]@);
                        }
                    }
                    return Err(CorpusError::RecordParse { line: i + 1 });
                },
            }
        }
        i += 1;
    }
    proof {
        assert(lv.take(lines@.len() as int) =~= lv);
        assert forall|j: int|
            0 <= j < lines@.len() && !is_blank(#[trigger] lines@[j]@) implies json_record_ok(
            lines@[j]@,
        ) by {
            assert(lv[j] == lines@[j]@);
        }
    }
    Ok(docs)
}

} // verus!
