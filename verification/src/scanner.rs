//! The line scanner: reports every line of a stream that satisfies a matcher.
//!
//! The stream itself is read by the caller, forward-only and exactly once;
//! the scanner receives the outcome of each line read in order. A failed read
//! aborts the scan and discards any matches accumulated before it: the
//! contract is all-or-nothing per stream.

use crate::matcher::Matcher;
use crate::matcher::ScanError;
use crate::matcher::MatchMode;
use crate::matcher::accepts;
use crate::matcher::regex_compiles;
use crate::matcher::regex_match;
use vstd::prelude::*;

verus! {

/// The outcome of reading one line from a stream: the line's text, or the
/// cause reported when the read failed.
pub enum LineRead {
    Line(String),
    Failure(String),
}

/// One reported result: the source the line came from (none for standard
/// input), its 0-based position among the lines read, and its text.
pub struct MatchRecord {
    pub source: Option<String>,
    pub line_index: usize,
    pub line_text: String,
}

/// The texts of a sequence of line reads; meaningful when every read
/// succeeded.
pub open spec fn read_lines(reads: Seq<LineRead>) -> Seq<Seq<char>> {
    reads.map_values(|r: LineRead| r->Line_0@)
}

/// The cause carried by the earliest failed read, if any read failed.
pub open spec fn first_failure(reads: Seq<LineRead>) -> Option<Seq<char>>
    decreases reads.len(),
{
    if reads.len() == 0 {
        None
    } else {
        match first_failure(reads.drop_last()) {
            Some(m) => Some(m),
            None => match reads.last() {
                LineRead::Failure(m) => Some(m@),
                LineRead::Line(_) => None,
            },
        }
    }
}

/// The subsequence of lines satisfying `pred`, order preserved, each line
/// paired with its original 0-based position.
pub open spec fn matching_records(
    pred: spec_fn(Seq<char>) -> bool,
    lines: Seq<Seq<char>>,
) -> Seq<(int, Seq<char>)> {
    Seq::new(lines.len(), |i: int| (i, lines[i])).filter((|p: (int, Seq<char>)| pred(p.1)))
}

/// The records carry exactly the expected positions and texts, and all wear
/// the given source label.
pub open spec fn records_match(
    recs: Seq<MatchRecord>,
    expected: Seq<(int, Seq<char>)>,
    source: Option<String>,
) -> bool {
    &&& recs.len() == expected.len()
    &&& forall|j: int|
        0 <= j < recs.len() ==> {
            &&& (#[trigger] recs[j]).line_index == expected[j].0
            &&& recs[j].line_text@ == expected[j].1
            &&& recs[j].source.deep_view() == source.deep_view()
        }
}

proof fn lemma_matching_records_push(
    pred: spec_fn(Seq<char>) -> bool,
    lines: Seq<Seq<char>>,
    l: Seq<char>,
)
    ensures
        matching_records(pred, lines.push(l)) == if pred(l) {
            matching_records(pred, lines).push((lines.len() as int, l))
        } else {
            matching_records(pred, lines)
        },
{
    let s1 = Seq::new(lines.push(l).len(), |i: int| (i, lines.push(l)[i]));
    let s0 = Seq::new(lines.len(), |i: int| (i, lines[i]));
    let q = (|p: (int, Seq<char>)| pred(p.1));
    assert(s1.drop_last() =~= s0);
    assert(s1.last() == (lines.len() as int, l));
    assert(s1.filter(q) == if q(s1.last()) {
        s0.filter(q).push(s1.last())
    } else {
        s0.filter(q)
    }) by {
        reveal_with_fuel(Seq::<(int, Seq<char>)>::filter, 2);
    }
}

/// Within one stream's results the line indices are strictly increasing —
/// records keep the order the lines were read in — and each index lies
/// within the stream, counting from 0.
pub proof fn lemma_record_order(pred: spec_fn(Seq<char>) -> bool, lines: Seq<Seq<char>>)
    ensures
        forall|j: int|
            0 <= j < matching_records(pred, lines).len() ==> 0 <= (#[trigger] matching_records(
                pred,
                lines,
            )[j]).0 < lines.len(),
        forall|j1: int, j2: int|
            0 <= j1 < j2 < matching_records(pred, lines).len() ==> matching_records(
                pred,
                lines,
            )[j1].0 < matching_records(pred, lines)[j2].0,
    decreases lines.len(),
{
    if lines.len() == 0 {
        assert(matching_records(pred, lines).len() == 0) by {
            reveal_with_fuel(Seq::<(int, Seq<char>)>::filter, 1);
            assert(Seq::new(lines.len(), |i: int| (i, lines[i])).len() == 0);
        }
    } else {
        lemma_record_order(pred, lines.drop_last());
        lemma_matching_records_push(pred, lines.drop_last(), lines.last());
        assert(lines.drop_last().push(lines.last()) =~= lines);
    }
}

proof fn lemma_first_failure_found(reads: Seq<LineRead>, i: int)
    requires
        0 <= i < reads.len(),
        first_failure(reads.subrange(0, i)) is None,
        reads[i] is Failure,
    ensures
        first_failure(reads) == Some(reads[i]->Failure_0@),
    decreases reads.len(),
{
    if i == reads.len() - 1 {
        assert(reads.drop_last() =~= reads.subrange(0, i));
    } else {
        assert(reads.drop_last().subrange(0, i) =~= reads.subrange(0, i));
        lemma_first_failure_found(reads.drop_last(), i);
    }
}

fn clone_source(source: &Option<String>) -> (r: Option<String>)
    ensures
        r.deep_view() == source.deep_view(),
{
    match source {
        Some(s) => Some(s.clone()),
        None => None,
    }
}

/// Scans the outcomes of reading one stream, in order, and reports every
/// successfully read line that the matcher accepts, labelled with `source`.
/// The first failed read aborts the whole scan; matches accumulated before it
/// are discarded.
pub fn scan(m: &Matcher, source: &Option<String>, reads: &Vec<LineRead>) -> (r: Result<
    Vec<MatchRecord>,
    ScanError,
>)
    ensures
        r is Ok <==> first_failure(reads@) is None,
        r is Ok ==> records_match(
            r->Ok_0@,
            matching_records((|l: Seq<char>| accepts(*m, l)), read_lines(reads@)),
            *source,
        ),
        r is Err ==> r->Err_0 is StreamRead && r->Err_0->StreamRead_0@ == first_failure(
            reads@,
        )->Some_0,
{
    let ghost pred = (|l: Seq<char>| accepts(*m, l));
    let mut out: Vec<MatchRecord> = Vec::new();
    let n: usize = reads.len();
    let mut idx: usize = 0;
    while idx < n
        invariant
            idx <= n,
            n == reads@.len(),
            pred == (|l: Seq<char>| accepts(*m, l)),
            first_failure(reads@.subrange(0, idx as int)) is None,
            records_match(
                out@,
                matching_records(pred, read_lines(reads@.subrange(0, idx as int))),
                *source,
            ),
        decreases n - idx,
    {
        let ghost prefix = reads@.subrange(0, idx as int);
        let ghost prefix1 = reads@.subrange(0, idx as int + 1);
        proof {
            assert(prefix1.drop_last() =~= prefix);
            assert(read_lines(prefix1) =~= read_lines(prefix).push(reads@[idx as int]->Line_0@));
        }
        match &reads[idx] {
            LineRead::Failure(msg) => {
                proof {
                    lemma_first_failure_found(reads@, idx as int);
                }
                return Err(ScanError::StreamRead(msg.clone()));
            },
            LineRead::Line(text) => {
                proof {
                    lemma_matching_records_push(
                        pred,
                        read_lines(prefix),
                        reads@[idx as int]->Line_0@,
                    );
                }
                if m.is_match(text.as_str()) {
                    let rec = MatchRecord {
                        source: clone_source(source),
                        line_index: idx,
                        line_text: text.clone(),
                    };
                    out.push(rec);
                }
            },
        }
        idx += 1;
    }
    proof {
        assert(reads@.subrange(0, n as int) =~= reads@);
    }
    Ok(out)
}

/// Mirrors the original search entry point: compiles the pattern as a regular
/// expression and scans one unlabelled stream with it. A malformed pattern is
/// reported before any line is looked at.
pub fn find(reads: &Vec<LineRead>, pattern: &str) -> (r: Result<Vec<MatchRecord>, ScanError>)
    ensures
        (r is Err && r->Err_0 is PatternCompile) <==> !regex_compiles(pattern@),
        regex_compiles(pattern@) ==> ((r is Ok) <==> first_failure(reads@) is None),
        r is Ok ==> records_match(
            r->Ok_0@,
            matching_records((|l: Seq<char>| regex_match(pattern@, l)), read_lines(reads@)),
            None,
        ),
        r is Err && r->Err_0 is StreamRead ==> r->Err_0->StreamRead_0@ == first_failure(
            reads@,
        )->Some_0,
{
    let m = match Matcher::compile(pattern, MatchMode::Regex) {
        Ok(m) => m,
        Err(e) => {
            return Err(e);
        },
    };
    proof {
        assert((|l: Seq<char>| accepts(m, l)) =~= (|l: Seq<char>| regex_match(pattern@, l)));
    }
    scan(&m, &None, reads)
}

} // verus!
