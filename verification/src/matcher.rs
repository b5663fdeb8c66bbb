//! The matcher: does a line of text satisfy the search condition?
//!
//! A matcher is built once per search from the user's pattern and a mode flag.
//! In literal mode it tests substring containment, which never fails to build
//! and is verified here from first principles. In regex mode it tests whether
//! the line contains a match for the compiled regular expression; compilation
//! and matching are done by the `regex` crate behind trusted wrappers.

use vstd::prelude::*;
use vstd::string::StrSliceExecFns;

verus! {

// ---------------------------------------------------------------------------
// Literal-substring containment, verified.
// ---------------------------------------------------------------------------

/// The pattern occurs in the line starting at character position `i`.
pub open spec fn match_at(line: Seq<char>, pat: Seq<char>, i: int) -> bool {
    &&& 0 <= i
    &&& i + pat.len() <= line.len()
    &&& line.subrange(i, i + pat.len()) == pat
}

/// The pattern occurs somewhere in the line.
pub open spec fn has_substring(line: Seq<char>, pat: Seq<char>) -> bool {
    exists|i: int| match_at(line, pat, i)
}

/// Every line contains the empty pattern, so the literal matcher built from
/// the empty string accepts every line.
pub proof fn lemma_empty_pattern_matches(line: Seq<char>)
    ensures
        has_substring(line, Seq::<char>::empty()),
{
    assert(line.subrange(0, 0) =~= Seq::<char>::empty());
    assert(match_at(line, Seq::<char>::empty(), 0));
}

/// Collects the characters of a string slice.
fn chars_of(s: &str) -> (r: Vec<char>)
    ensures
        r@ == s@,
{
    let n: usize = s.unicode_len();
    let mut r: Vec<char> = Vec::new();
    let mut i: usize = 0;
    while i < n
        invariant
            i <= n,
            n == s@.len(),
            r@ =~= s@.subrange(0, i as int),
        decreases n - i,
    {
        let c = s.get_char(i);
        r.push(c);
        i += 1;
    }
    proof {
        assert(r@ =~= s@);
    }
    r
}

/// Compares the pattern against the line at one starting position.
fn matches_at(line: &Vec<char>, pat: &Vec<char>, i: usize) -> (r: bool)
    requires
        i + pat@.len() <= line@.len(),
    ensures
        r == match_at(line@, pat@, i as int),
{
    let line_len: usize = line.len();
    let mut j: usize = 0;
    while j < pat.len()
        invariant
            i + pat@.len() <= line@.len(),
            line_len == line@.len(),
            j <= pat@.len(),
            forall|t: int| 0 <= t < j ==> line@[i + t] == pat@[t],
        decreases pat@.len() - j,
    {
        if line[i + j] != pat[j] {
            proof {
                assert(line@.subrange(i as int, i + pat@.len()) != pat@) by {
                    assert(line@.subrange(i as int, i + pat@.len())[j as int] != pat@[j as int]);
                }
            }
            return false;
        }
        j += 1;
    }
    proof {
        assert(line@.subrange(i as int, i + pat@.len()) =~= pat@);
    }
    true
}

/// Substring search: scans every starting position in order.
fn contains_substring(line: &Vec<char>, pat: &Vec<char>) -> (r: bool)
    ensures
        r == has_substring(line@, pat@),
{
    if pat.len() > line.len() {
        proof {
            assert(forall|k: int| !match_at(line@, pat@, k));
        }
        return false;
    }
    let bound: usize = line.len() - pat.len();
    let mut i: usize = 0;
    while i < bound
        invariant
            pat@.len() <= line@.len(),
            bound == line@.len() - pat@.len(),
            i <= bound,
            forall|k: int| 0 <= k < i ==> !match_at(line@, pat@, k),
        decreases bound - i,
    {
        if matches_at(line, pat, i) {
            return true;
        }
        i += 1;
    }
    if matches_at(line, pat, bound) {
        return true;
    }
    proof {
        assert(forall|k: int| !match_at(line@, pat@, k)) by {
            assert(forall|k: int| k > bound ==> !match_at(line@, pat@, k));
        }
    }
    false
}

// ---------------------------------------------------------------------------
// Trusted view of the regex crate.
// ---------------------------------------------------------------------------

/// Whether `regex::Regex::new` accepts the pattern; parsing depends on the
/// pattern alone.
pub uninterp spec fn regex_compiles(pattern: Seq<char>) -> bool;

/// The source pattern a compiled `regex::Regex` holds, as `Regex::as_str`
/// returns it.
pub uninterp spec fn regex_pattern(re: regex::Regex) -> Seq<char>;

/// Whether the regular expression compiled from `pattern` has a match inside
/// `line`; the result depends on the two strings alone.
pub uninterp spec fn regex_match(pattern: Seq<char>, line: Seq<char>) -> bool;

/// What the `Display` text of a `regex::Error` holds; it depends on the
/// error value alone.
pub uninterp spec fn regex_error_message(e: regex::Error) -> Seq<char>;

#[verifier::external_type_specification]
#[verifier::external_body]
pub struct ExRegex(regex::Regex);

#[verifier::external_type_specification]
#[verifier::external_body]
pub struct ExRegexError(regex::Error);

/// Relies on `regex::Regex::new`: it succeeds exactly on well-formed patterns
/// — the empty pattern among them — and the returned value keeps its source
/// pattern (`Regex::as_str`).
#[verifier::external_body]
fn regex_new(pattern: &str) -> (r: Result<regex::Regex, regex::Error>)
    ensures
        r is Ok <==> regex_compiles(pattern@),
        pattern@.len() == 0 ==> r is Ok,
        r is Ok ==> regex_pattern(r->Ok_0) == pattern@,
{
    regex::Regex::new(pattern)
}

/// Relies on `regex::Regex::is_match`: whether a default-built expression has
/// a match inside the line depends on its source pattern and the line alone;
/// the expression built from the empty pattern matches in every line.
#[verifier::external_body]
fn regex_is_match(re: &regex::Regex, line: &str) -> (r: bool)
    ensures
        r == regex_match(regex_pattern(*re), line@),
        regex_pattern(*re).len() == 0 ==> r,
{
    re.is_match(line)
}

// ---------------------------------------------------------------------------
// The matcher itself.
// ---------------------------------------------------------------------------

/// The two matching strategies a search can ask for.
pub enum MatchMode {
    Literal,
    Regex,
}

/// A compiled matcher: immutable, reusable across any number of lines.
pub enum Matcher {
    /// Accepts a line when it contains the pattern as a substring.
    Literal(String),
    /// Accepts a line when the regular expression has a match inside it.
    Regexp(regex::Regex),
}

/// What a matcher accepts: the single entry point the scanner's contract
/// speaks of.
pub open spec fn accepts(m: Matcher, line: Seq<char>) -> bool {
    match m {
        Matcher::Literal(p) => has_substring(line, p@),
        Matcher::Regexp(re) => regex_match(regex_pattern(re), line),
    }
}

/// A failure while building a matcher or scanning a stream.
#[derive(Debug)]
pub enum ScanError {
    /// The pattern is not a well-formed regular expression; carries the
    /// underlying diagnostic.
    PatternCompile(regex::Error),
    /// A line could not be read from the stream; carries the reported cause.
    StreamRead(String),
}

/// Relies on the `Display` impl of `regex::Error` for the diagnostic text.
#[verifier::external_body]
fn regex_error_text(e: &regex::Error) -> (r: String)
    ensures
        r@ == regex_error_message(*e),
{
    format!("{e}")
}

impl ScanError {
    /// A human-readable description of the failure.
    pub fn describe(&self) -> (r: String)
        ensures
            *self is StreamRead ==> r@ == self->StreamRead_0@,
            *self is PatternCompile ==> r@ == regex_error_message(self->PatternCompile_0),
    {
        match self {
            ScanError::PatternCompile(e) => regex_error_text(e),
            ScanError::StreamRead(m) => m.clone(),
        }
    }
}

impl Matcher {
    /// Builds a matcher from a pattern and a mode. Literal mode never fails;
    /// regex mode fails exactly on malformed patterns — never on the empty
    /// one — before any stream is touched.
    pub fn compile(pattern: &str, mode: MatchMode) -> (r: Result<Matcher, ScanError>)
        ensures
            mode is Literal ==> r is Ok && r->Ok_0 is Literal && r->Ok_0->Literal_0@ == pattern@,
            mode is Regex ==> (r is Ok <==> regex_compiles(pattern@)),
            mode is Regex && r is Ok ==> r->Ok_0 is Regexp && regex_pattern(
                r->Ok_0->Regexp_0,
            ) == pattern@,
            pattern@.len() == 0 ==> r is Ok,
            r is Err ==> r->Err_0 is PatternCompile,
    {
        match mode {
            MatchMode::Literal => Ok(Matcher::Literal(pattern.to_owned())),
            MatchMode::Regex => match regex_new(pattern) {
                Ok(re) => Ok(Matcher::Regexp(re)),
                Err(e) => Err(ScanError::PatternCompile(e)),
            },
        }
    }

    /// Tests one line; stateless and side-effect-free. A matcher whose
    /// pattern is empty — literal or regex — accepts every line.
    pub fn is_match(&self, line: &str) -> (r: bool)
        ensures
            r == accepts(*self, line@),
            self.pattern_len() == 0 ==> r,
    {
        match self {
            Matcher::Literal(p) => {
                let lc = chars_of(line);
                let pc = chars_of(p.as_str());
                proof {
                    if p@.len() == 0 {
                        lemma_empty_pattern_matches(line@);
                        assert(p@ =~= Seq::<char>::empty());
                    }
                }
                contains_substring(&lc, &pc)
            },
            Matcher::Regexp(re) => regex_is_match(re, line),
        }
    }

    /// The length of the pattern this matcher was built from.
    pub open spec fn pattern_len(self) -> nat {
        match self {
            Matcher::Literal(p) => p@.len(),
            Matcher::Regexp(re) => regex_pattern(re).len(),
        }
    }
}

} // verus!
