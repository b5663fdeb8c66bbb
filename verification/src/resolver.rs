//! The path resolver: matches a set of glob expressions against a directory
//! tree, one level deep or recursively, and collects the matching paths in
//! traversal order.
//!
//! The tree is taken as a value: each directory is either its listing, in the
//! order the underlying primitive yielded it, or the cause for which it could
//! not be listed. Glob compilation and path matching are done by the
//! `globset` crate behind trusted wrappers; everything around them — the
//! walk, its order, and its all-or-nothing failure policy — is verified.

use vstd::multiset::Multiset;
use vstd::prelude::*;
use vstd::seq_lib::lemma_multiset_commutative;

verus! {

// ---------------------------------------------------------------------------
// Trusted view of the globset crate.
// ---------------------------------------------------------------------------

/// Whether `globset::Glob::new` accepts the expression; parsing depends on
/// the expression alone.
pub uninterp spec fn glob_compiles(expression: Seq<char>) -> bool;

/// What a compiled `globset::Glob` holds: its source expression, as
/// `Glob::glob` returns it.
pub uninterp spec fn glob_pattern(g: globset::Glob) -> Seq<char>;

/// What a `globset::GlobSetBuilder` holds: the source expressions of the
/// globs added so far, in order.
pub uninterp spec fn builder_patterns(b: globset::GlobSetBuilder) -> Seq<Seq<char>>;

/// What a `globset::GlobSet` holds: the source expressions of the globs it
/// was built from, in order.
pub uninterp spec fn globset_patterns(s: globset::GlobSet) -> Seq<Seq<char>>;

/// Whether `globset::GlobSetBuilder::build` assembles a combined matcher
/// from globs with these source expressions; building compiles the globs'
/// derived regexes, so the outcome depends on the expressions alone.
pub uninterp spec fn globset_builds(patterns: Seq<Seq<char>>) -> bool;

/// Whether any expression of the set matches the path; the result depends on
/// the expressions and the path text alone (path-separator normalization is
/// fixed per compilation target).
pub uninterp spec fn globset_matches(patterns: Seq<Seq<char>>, path: Seq<char>) -> bool;

/// What the `Display` text of a `globset::Error` holds; it depends on the
/// error value alone.
pub uninterp spec fn globset_error_message(e: globset::Error) -> Seq<char>;

#[verifier::external_type_specification]
#[verifier::external_body]
pub struct ExGlob(globset::Glob);

#[verifier::external_type_specification]
#[verifier::external_body]
pub struct ExGlobSet(globset::GlobSet);

#[verifier::external_type_specification]
#[verifier::external_body]
pub struct ExGlobSetBuilder(globset::GlobSetBuilder);

#[verifier::external_type_specification]
#[verifier::external_body]
pub struct ExGlobError(globset::Error);

/// Relies on `globset::Glob::new`: it succeeds exactly on well-formed
/// expressions, and the returned glob keeps its source (`Glob::glob`).
#[verifier::external_body]
fn glob_new(expression: &str) -> (r: Result<globset::Glob, globset::Error>)
    ensures
        r is Ok <==> glob_compiles(expression@),
        r is Ok ==> glob_pattern(r->Ok_0) == expression@,
{
    globset::Glob::new(expression)
}

/// Relies on `globset::GlobSetBuilder::new`: the fresh builder holds no glob.
#[verifier::external_body]
fn builder_new() -> (b: globset::GlobSetBuilder)
    ensures
        builder_patterns(b) == Seq::<Seq<char>>::empty(),
{
    globset::GlobSetBuilder::new()
}

/// Relies on `globset::GlobSetBuilder::add`: it appends the glob to those
/// held so far.
#[verifier::external_body]
fn builder_add(b: &mut globset::GlobSetBuilder, g: globset::Glob)
    ensures
        builder_patterns(*final(b)) == builder_patterns(*old(b)).push(glob_pattern(g)),
{
    b.add(g);
}

/// Relies on `globset::GlobSetBuilder::build`: whether it succeeds depends on
/// the added globs alone, and on success the set holds exactly those globs.
#[verifier::external_body]
fn builder_build(b: &globset::GlobSetBuilder) -> (r: Result<globset::GlobSet, globset::Error>)
    ensures
        r is Ok <==> globset_builds(builder_patterns(*b)),
        r is Ok ==> globset_patterns(r->Ok_0) == builder_patterns(*b),
{
    b.build()
}

/// Relies on `globset::GlobSet::is_match`: whether a set of default-built
/// globs matches depends on their expressions and the path text alone.
#[verifier::external_body]
fn globset_is_match(s: &globset::GlobSet, path: &str) -> (r: bool)
    ensures
        r == globset_matches(globset_patterns(*s), path@),
{
    s.is_match(path)
}

// ---------------------------------------------------------------------------
// The compiled glob matcher.
// ---------------------------------------------------------------------------

/// A failure while compiling glob expressions or walking the tree.
#[derive(Debug)]
pub enum ResolveError {
    /// A glob expression is malformed (carries the offending expression), or
    /// the combined set could not be assembled (no single expression to
    /// carry); either way the underlying diagnostic comes second.
    GlobCompile(Option<String>, globset::Error),
    /// A directory could not be listed; carries the reported cause.
    DirectoryRead(String),
}

/// Relies on the `Display` impl of `globset::Error` for the diagnostic text.
#[verifier::external_body]
fn glob_error_text(e: &globset::Error) -> (r: String)
    ensures
        r@ == globset_error_message(*e),
{
    format!("{e}")
}

impl ResolveError {
    /// A human-readable description of the failure.
    pub fn describe(&self) -> (r: String)
        ensures
            *self is DirectoryRead ==> r@ == self->DirectoryRead_0@,
            *self is GlobCompile ==> r@ == globset_error_message(self->GlobCompile_1),
    {
        match self {
            ResolveError::GlobCompile(_, e) => glob_error_text(e),
            ResolveError::DirectoryRead(m) => m.clone(),
        }
    }
}

/// An immutable compiled representation of one or more glob expressions,
/// matching a path when any of them does. Built once, reused across every
/// traversal call, never rebuilt or mutated.
pub struct GlobMatcher {
    set: globset::GlobSet,
}

impl GlobMatcher {
    /// The expressions this matcher was built from.
    pub closed spec fn patterns(self) -> Seq<Seq<char>> {
        globset_patterns(self.set)
    }

    /// Compiles a set of glob expressions into one matcher. It succeeds
    /// exactly when every expression compiles and the combined set
    /// assembles; a malformed expression aborts compilation — and is
    /// reported — before any filesystem access, the first offender being the
    /// one reported.
    pub fn compile(expressions: &Vec<String>) -> (r: Result<GlobMatcher, ResolveError>)
        ensures
            r is Ok <==> (forall|i: int|
                0 <= i < expressions@.len() ==> glob_compiles(#[trigger] expressions@[i]@))
                && globset_builds(expressions.deep_view()),
            r is Ok ==> r->Ok_0.patterns() == expressions.deep_view(),
            r is Err ==> r->Err_0 is GlobCompile,
            r is Err && r->Err_0->GlobCompile_0 is Some ==> {
                let bad = r->Err_0->GlobCompile_0->Some_0@;
                exists|i: int|
                    {
                        &&& 0 <= i < expressions@.len()
                        &&& #[trigger] expressions@[i]@ == bad
                        &&& !glob_compiles(bad)
                        &&& forall|j: int| 0 <= j < i ==> glob_compiles(#[trigger] expressions@[j]@)
                    }
            },
            r is Err && r->Err_0->GlobCompile_0 is None ==> (forall|i: int|
                0 <= i < expressions@.len() ==> glob_compiles(#[trigger] expressions@[i]@))
                && !globset_builds(expressions.deep_view()),
    {
        let mut b = builder_new();
        let n = expressions.len();
        let mut i: usize = 0;
        while i < n
            invariant
                i <= n,
                n == expressions@.len(),
                builder_patterns(b) =~= expressions.deep_view().subrange(0, i as int),
                forall|j: int| 0 <= j < i ==> glob_compiles(#[trigger] expressions@[j]@),
            decreases n - i,
        {
            match glob_new(expressions[i].as_str()) {
                Ok(g) => {
                    builder_add(&mut b, g);
                    proof {
                        assert(builder_patterns(b) =~= expressions.deep_view().subrange(
                            0,
                            i as int + 1,
                        ));
                    }
                },
                Err(e) => {
                    return Err(ResolveError::GlobCompile(Some(expressions[i].clone()), e));
                },
            }
            i += 1;
        }
        proof {
            assert(builder_patterns(b) =~= expressions.deep_view());
        }
        match builder_build(&b) {
            Ok(set) => Ok(GlobMatcher { set }),
            Err(e) => Err(ResolveError::GlobCompile(None, e)),
        }
    }
}

// ---------------------------------------------------------------------------
// The directory tree, taken as a value.
// ---------------------------------------------------------------------------

/// What a directory entry is: a regular file, a directory with its own
/// sub-tree, or anything else.
pub enum EntryKind {
    File,
    Directory(DirNode),
    Other,
}

/// One file-system entry of a listing: its path as formed by joining the
/// traversal root with the entry name, and its kind.
pub struct DirEntry {
    pub path: String,
    pub kind: EntryKind,
}

/// One directory: its entries in the order the listing primitive yielded
/// them, or the cause for which it could not be listed.
pub enum DirNode {
    Listed(Vec<DirEntry>),
    Unreadable(String),
}

/// The paths a walk of this node collects, in traversal order: for each entry
/// in listing order, its own path if it matches, then — when recursing and
/// the entry is a directory — the paths of its sub-tree, depth first.
pub open spec fn walk_results(patterns: Seq<Seq<char>>, node: DirNode, recursive: bool) -> Seq<
    Seq<char>,
>
    decreases node,
{
    match node {
        DirNode::Unreadable(_) => Seq::empty(),
        DirNode::Listed(es) => entries_results(patterns, es@, recursive),
    }
}

/// The paths collected across a listing, in order.
pub open spec fn entries_results(
    patterns: Seq<Seq<char>>,
    es: Seq<DirEntry>,
    recursive: bool,
) -> Seq<Seq<char>>
    decreases es,
{
    if es.len() == 0 {
        Seq::empty()
    } else {
        let e = es.last();
        let own = if globset_matches(patterns, e.path@) {
            seq![e.path@]
        } else {
            Seq::<Seq<char>>::empty()
        };
        let sub = if recursive && e.kind is Directory {
            walk_results(patterns, e.kind->Directory_0, recursive)
        } else {
            Seq::<Seq<char>>::empty()
        };
        entries_results(patterns, es.drop_last(), recursive) + own + sub
    }
}

/// The cause carried by the first unreadable directory a walk of this node
/// visits, if it visits any: the node's own cause, or the first one found
/// while recursing through its entries in order.
pub open spec fn walk_failure(node: DirNode, recursive: bool) -> Option<Seq<char>>
    decreases node,
{
    match node {
        DirNode::Unreadable(m) => Some(m@),
        DirNode::Listed(es) => entries_failure(es@, recursive),
    }
}

/// The first failure found across a listing, in order.
pub open spec fn entries_failure(es: Seq<DirEntry>, recursive: bool) -> Option<Seq<char>>
    decreases es,
{
    if es.len() == 0 {
        None
    } else {
        match entries_failure(es.drop_last(), recursive) {
            Some(m) => Some(m),
            None => {
                let e = es.last();
                if recursive && e.kind is Directory {
                    walk_failure(e.kind->Directory_0, recursive)
                } else {
                    None
                }
            },
        }
    }
}

proof fn lemma_entries_failure_found(es: Seq<DirEntry>, recursive: bool, i: int)
    requires
        0 <= i < es.len(),
        entries_failure(es.subrange(0, i), recursive) is None,
        recursive,
        es[i].kind is Directory,
        walk_failure(es[i].kind->Directory_0, recursive) is Some,
    ensures
        entries_failure(es, recursive) == walk_failure(es[i].kind->Directory_0, recursive),
    decreases es.len(),
{
    if i == es.len() - 1 {
        assert(es.drop_last() =~= es.subrange(0, i));
    } else {
        assert(es.drop_last().subrange(0, i) =~= es.subrange(0, i));
        lemma_entries_failure_found(es.drop_last(), recursive, i);
    }
}

impl GlobMatcher {
    /// Walks the tree from `root` and collects, in traversal order, every
    /// path that matches this matcher. With `recursive` set it descends into
    /// every subdirectory — matching or not — and appends the subdirectory's
    /// results right after that entry's own match, depth first. The first
    /// unlistable directory visited aborts the whole resolution: no partial
    /// result is returned.
    pub fn resolve(&self, root: &DirNode, recursive: bool) -> (r: Result<
        Vec<String>,
        ResolveError,
    >)
        ensures
            r is Ok <==> walk_failure(*root, recursive) is None,
            r is Ok ==> r->Ok_0.deep_view() == walk_results(self.patterns(), *root, recursive),
            r is Err ==> r->Err_0 is DirectoryRead && r->Err_0->DirectoryRead_0@ == walk_failure(
                *root,
                recursive,
            )->Some_0,
        decreases *root,
    {
        match root {
            DirNode::Unreadable(m) => Err(ResolveError::DirectoryRead(m.clone())),
            DirNode::Listed(entries) => self.walk_entries(entries, recursive),
        }
    }

    /// Walks one listing in order; see `resolve`.
    fn walk_entries(&self, entries: &Vec<DirEntry>, recursive: bool) -> (r: Result<
        Vec<String>,
        ResolveError,
    >)
        ensures
            r is Ok <==> entries_failure(entries@, recursive) is None,
            r is Ok ==> r->Ok_0.deep_view() == entries_results(
                self.patterns(),
                entries@,
                recursive,
            ),
            r is Err ==> r->Err_0 is DirectoryRead && r->Err_0->DirectoryRead_0@
                == entries_failure(entries@, recursive)->Some_0,
        decreases entries@,
    {
        let mut out: Vec<String> = Vec::new();
        let n = entries.len();
        let mut i: usize = 0;
        while i < n
            invariant
                i <= n,
                n == entries@.len(),
                entries_failure(entries@.subrange(0, i as int), recursive) is None,
                out.deep_view() =~= entries_results(
                    self.patterns(),
                    entries@.subrange(0, i as int),
                    recursive,
                ),
            decreases n - i,
        {
            let ghost prefix = entries@.subrange(0, i as int);
            let ghost prefix1 = entries@.subrange(0, i as int + 1);
            proof {
                assert(prefix1.drop_last() =~= prefix);
                assert(prefix1.last() == entries@[i as int]);
            }
            let e = &entries[i];
            if globset_is_match(&self.set, e.path.as_str()) {
                out.push(e.path.clone());
            }
            if recursive {
                match &e.kind {
                    EntryKind::Directory(sub) => {
                        proof {
                            assert(decreases_to!(entries@ => entries@[i as int]));
                        }
                        match self.resolve(sub, recursive) {
                            Ok(mut vs) => {
                                out.append(&mut vs);
                            },
                            Err(err) => {
                                proof {
                                    lemma_entries_failure_found(entries@, recursive, i as int);
                                }
                                return Err(err);
                            },
                        }
                    },
                    _ => {},
                }
            }
            proof {
                assert(out.deep_view() =~= entries_results(self.patterns(), prefix1, recursive));
            }
            i += 1;
        }
        proof {
            assert(entries@.subrange(0, n as int) =~= entries@);
        }
        Ok(out)
    }
}

/// Resolves a set of glob expressions against a directory tree: compiles
/// them once, then walks. The compiled matcher is reused, by reference,
/// through every level of the recursion; it is never rebuilt. It succeeds
/// exactly when every expression compiles, the combined set assembles, and
/// the walk meets no unreadable directory; a compile failure is reported
/// before any part of the tree is looked at.
pub fn resolve_globs(expressions: &Vec<String>, root: &DirNode, recursive: bool) -> (r: Result<
    Vec<String>,
    ResolveError,
>)
    ensures
        r is Ok <==> (forall|i: int|
            0 <= i < expressions@.len() ==> glob_compiles(#[trigger] expressions@[i]@))
            && globset_builds(expressions.deep_view()) && walk_failure(*root, recursive) is None,
        r is Ok ==> r->Ok_0.deep_view() == walk_results(expressions.deep_view(), *root, recursive),
        r is Err && r->Err_0 is DirectoryRead ==> (forall|i: int|
            0 <= i < expressions@.len() ==> glob_compiles(#[trigger] expressions@[i]@))
            && globset_builds(expressions.deep_view()) && walk_failure(*root, recursive) is Some
            && r->Err_0->DirectoryRead_0@ == walk_failure(*root, recursive)->Some_0,
        (forall|i: int|
            0 <= i < expressions@.len() ==> glob_compiles(#[trigger] expressions@[i]@))
            && globset_builds(expressions.deep_view()) && walk_failure(*root, recursive) is Some
            ==> r is Err && r->Err_0 is DirectoryRead,
        r is Err && r->Err_0 is GlobCompile && r->Err_0->GlobCompile_0 is Some ==> {
            let bad = r->Err_0->GlobCompile_0->Some_0@;
            exists|i: int|
                {
                    &&& 0 <= i < expressions@.len()
                    &&& #[trigger] expressions@[i]@ == bad
                    &&& !glob_compiles(bad)
                    &&& forall|j: int| 0 <= j < i ==> glob_compiles(#[trigger] expressions@[j]@)
                }
        },
        r is Err && r->Err_0 is GlobCompile && r->Err_0->GlobCompile_0 is None ==> (forall|i: int|
            0 <= i < expressions@.len() ==> glob_compiles(#[trigger] expressions@[i]@))
            && !globset_builds(expressions.deep_view()),
{
    let m = match GlobMatcher::compile(expressions) {
        Ok(m) => m,
        Err(e) => {
            return Err(e);
        },
    };
    m.resolve(root, recursive)
}

// ---------------------------------------------------------------------------
// Laws of resolution.
// ---------------------------------------------------------------------------

/// The paths of a listing, in listing order.
pub open spec fn level_paths(es: Seq<DirEntry>) -> Seq<Seq<char>> {
    es.map_values(|e: DirEntry| e.path@)
}

/// One directory's individually matching entries, in listing order.
pub open spec fn level_matches(patterns: Seq<Seq<char>>, es: Seq<DirEntry>) -> Seq<Seq<char>> {
    level_paths(es).filter((|p: Seq<char>| globset_matches(patterns, p)))
}

proof fn lemma_filter_subset(s: Seq<Seq<char>>, pred: spec_fn(Seq<char>) -> bool, x: Seq<char>)
    requires
        s.filter(pred).contains(x),
    ensures
        s.contains(x),
    decreases s.len(),
{
    reveal_with_fuel(Seq::<Seq<char>>::filter, 2);
    if s.len() > 0 {
        let fd = s.drop_last().filter(pred);
        if pred(s.last()) {
            assert(s.filter(pred) == fd.push(s.last()));
        } else {
            assert(s.filter(pred) == fd);
        }
        if pred(s.last()) && x == s.last() {
            assert(s[s.len() - 1] == x);
        } else {
            assert(fd.contains(x)) by {
                let j = choose|j: int|
                    0 <= j < s.filter(pred).len() && s.filter(pred)[j] == x;
                assert(fd[j] == x);
            }
            lemma_filter_subset(s.drop_last(), pred, x);
            let j = choose|j: int| 0 <= j < s.drop_last().len() && s.drop_last()[j] == x;
            assert(s[j] == x);
        }
    }
}

/// Non-recursive resolution returns exactly the immediate entries whose path
/// matches at least one expression, in listing order; and when the listing's
/// paths are distinct — as one directory's listing is — no path appears
/// twice.
pub proof fn lemma_flat_resolution(patterns: Seq<Seq<char>>, es: Seq<DirEntry>)
    ensures
        entries_results(patterns, es, false) == level_matches(patterns, es),
        level_paths(es).no_duplicates() ==> entries_results(patterns, es, false).no_duplicates(),
    decreases es.len(),
{
    reveal_with_fuel(Seq::<Seq<char>>::filter, 2);
    let q = (|p: Seq<char>| globset_matches(patterns, p));
    let lp = level_paths(es);
    if es.len() == 0 {
        assert(lp =~= Seq::<Seq<char>>::empty());
        assert(entries_results(patterns, es, false) =~= level_matches(patterns, es));
    } else {
        lemma_flat_resolution(patterns, es.drop_last());
        assert(lp.drop_last() =~= level_paths(es.drop_last()));
        assert(lp.last() == es.last().path@);
        let fd = lp.drop_last().filter(q);
        if q(lp.last()) {
            assert(lp.filter(q) == fd.push(lp.last()));
            assert(entries_results(patterns, es, false) =~= fd.push(lp.last()));
        } else {
            assert(lp.filter(q) == fd);
            assert(entries_results(patterns, es, false) =~= fd);
        }
        if lp.no_duplicates() {
            assert(lp.drop_last().no_duplicates());
            if q(lp.last()) {
                if fd.contains(lp.last()) {
                    lemma_filter_subset(lp.drop_last(), q, lp.last());
                    let j = choose|j: int|
                        0 <= j < lp.drop_last().len() && lp.drop_last()[j] == lp.last();
                    assert(lp[j] == lp[lp.len() - 1]);
                    assert(false);
                }
                assert(fd.push(lp.last()).no_duplicates());
            }
        }
    }
}

/// No path appears twice in a non-recursive result: the expressions are
/// OR-ed into one matcher and each entry is tested once, so an entry
/// contributes at most one path however many expressions its path matches —
/// provided the listing itself names no path twice, as a real directory
/// listing does not.
pub proof fn lemma_no_duplicate_matches(patterns: Seq<Seq<char>>, es: Seq<DirEntry>)
    requires
        level_paths(es).no_duplicates(),
    ensures
        entries_results(patterns, es, false).no_duplicates(),
{
    lemma_flat_resolution(patterns, es);
}

/// One entry's contribution to a walk, in order: its own path if it matches,
/// then — when recursing and the entry is a directory — everything its
/// sub-tree yields.
pub open spec fn entry_results(patterns: Seq<Seq<char>>, e: DirEntry, recursive: bool) -> Seq<
    Seq<char>,
> {
    (if globset_matches(patterns, e.path@) {
        seq![e.path@]
    } else {
        Seq::<Seq<char>>::empty()
    }) + (if recursive && e.kind is Directory {
        walk_results(patterns, e.kind->Directory_0, recursive)
    } else {
        Seq::<Seq<char>>::empty()
    })
}

/// Depth-first order, stated on its own: a walk's result is the
/// concatenation, in listing order, of each entry's contribution. So results
/// within one directory follow listing order, a matching directory's own
/// path precedes every result found inside it, and all of an entry's results
/// precede those of every later sibling.
pub proof fn lemma_depth_first_order(patterns: Seq<Seq<char>>, es: Seq<DirEntry>, recursive: bool)
    ensures
        entries_results(patterns, es, recursive) == es.map_values(
            |e: DirEntry| entry_results(patterns, e, recursive),
        ).flatten_alt(),
    decreases es.len(),
{
    let mapped = es.map_values(|e: DirEntry| entry_results(patterns, e, recursive));
    if es.len() == 0 {
        assert(mapped =~= Seq::<Seq<Seq<char>>>::empty());
        assert(entries_results(patterns, es, recursive) =~= mapped.flatten_alt());
    } else {
        lemma_depth_first_order(patterns, es.drop_last(), recursive);
        assert(mapped.drop_last() =~= es.drop_last().map_values(
            |e: DirEntry| entry_results(patterns, e, recursive),
        ));
        assert(mapped.last() == entry_results(patterns, es.last(), recursive));
        assert(entries_results(patterns, es, recursive) =~= mapped.flatten_alt());
    }
}

/// The listings of the directories a recursive walk visits, in depth-first
/// pre-order: the node's own listing, then those of each subdirectory, in
/// entry order.
pub open spec fn visited_listings(node: DirNode) -> Seq<Seq<DirEntry>>
    decreases node,
{
    match node {
        DirNode::Unreadable(_) => Seq::empty(),
        DirNode::Listed(es) => seq![es@] + entries_visited(es@),
    }
}

/// The listings visited below one listing's entries, in entry order.
pub open spec fn entries_visited(es: Seq<DirEntry>) -> Seq<Seq<DirEntry>>
    decreases es,
{
    if es.len() == 0 {
        Seq::empty()
    } else {
        entries_visited(es.drop_last()) + if es.last().kind is Directory {
            visited_listings(es.last().kind->Directory_0)
        } else {
            Seq::<Seq<DirEntry>>::empty()
        }
    }
}

/// The number of listed directories reachable from this node, itself
/// included.
pub open spec fn dir_count(node: DirNode) -> nat
    decreases node,
{
    match node {
        DirNode::Unreadable(_) => 0,
        DirNode::Listed(es) => 1 + entries_dir_count(es@),
    }
}

/// The number of listed directories reachable below one listing's entries.
pub open spec fn entries_dir_count(es: Seq<DirEntry>) -> nat
    decreases es,
{
    if es.len() == 0 {
        0
    } else {
        entries_dir_count(es.drop_last()) + if es.last().kind is Directory {
            dir_count(es.last().kind->Directory_0)
        } else {
            0
        }
    }
}

/// The union, across a sequence of listings, of their individually matching
/// entries, as a multiset.
pub open spec fn listings_matches(patterns: Seq<Seq<char>>, ls: Seq<Seq<DirEntry>>) -> Multiset<
    Seq<char>,
>
    decreases ls.len(),
{
    if ls.len() == 0 {
        Multiset::empty()
    } else {
        listings_matches(patterns, ls.drop_last()).add(
            level_matches(patterns, ls.last()).to_multiset(),
        )
    }
}

proof fn lemma_listings_matches_concat(
    patterns: Seq<Seq<char>>,
    a: Seq<Seq<DirEntry>>,
    b: Seq<Seq<DirEntry>>,
)
    ensures
        listings_matches(patterns, a + b) =~= listings_matches(patterns, a).add(
            listings_matches(patterns, b),
        ),
    decreases b.len(),
{
    if b.len() == 0 {
        assert(a + b =~= a);
    } else {
        assert((a + b).drop_last() =~= a + b.drop_last());
        assert((a + b).last() == b.last());
        lemma_listings_matches_concat(patterns, a, b.drop_last());
    }
}

/// A recursive walk visits every directory reachable from the root exactly
/// once — its visited listings, in depth-first pre-order, number exactly the
/// reachable directories — and yields, as a multiset, the union across all
/// visited directories of their individually matching entries.
pub proof fn lemma_recursive_union(patterns: Seq<Seq<char>>, node: DirNode)
    ensures
        visited_listings(node).len() == dir_count(node),
        walk_results(patterns, node, true).to_multiset() =~= listings_matches(
            patterns,
            visited_listings(node),
        ),
    decreases node,
{
    broadcast use vstd::seq_lib::group_to_multiset_ensures;

    match node {
        DirNode::Unreadable(_) => {
            assert(Seq::<Seq<char>>::empty().to_multiset() =~= Multiset::<Seq<char>>::empty());
        },
        DirNode::Listed(es) => {
            lemma_entries_union(patterns, es@);
            let head = seq![es@];
            assert(head.drop_last() =~= Seq::<Seq<DirEntry>>::empty());
            assert(listings_matches(patterns, Seq::<Seq<DirEntry>>::empty())
                == Multiset::<Seq<char>>::empty());
            assert(listings_matches(patterns, head) =~= level_matches(
                patterns,
                es@,
            ).to_multiset().add(Multiset::empty())) by {
                assert(listings_matches(patterns, head) == listings_matches(
                    patterns,
                    head.drop_last(),
                ).add(level_matches(patterns, head.last()).to_multiset()));
            }
            lemma_listings_matches_concat(patterns, head, entries_visited(es@));
        },
    }
}

proof fn lemma_entries_union(patterns: Seq<Seq<char>>, es: Seq<DirEntry>)
    ensures
        entries_visited(es).len() == entries_dir_count(es),
        entries_results(patterns, es, true).to_multiset() =~= level_matches(
            patterns,
            es,
        ).to_multiset().add(listings_matches(patterns, entries_visited(es))),
    decreases es,
{
    broadcast use vstd::seq_lib::group_to_multiset_ensures;

    reveal_with_fuel(Seq::<Seq<char>>::filter, 2);
    let q = (|p: Seq<char>| globset_matches(patterns, p));
    let lp = level_paths(es);
    if es.len() == 0 {
        assert(lp =~= Seq::<Seq<char>>::empty());
        assert(level_matches(patterns, es) =~= Seq::<Seq<char>>::empty());
        assert(Seq::<Seq<char>>::empty().to_multiset() =~= Multiset::<Seq<char>>::empty());
    } else {
        lemma_entries_union(patterns, es.drop_last());
        let e = es.last();
        let own = if globset_matches(patterns, e.path@) {
            seq![e.path@]
        } else {
            Seq::<Seq<char>>::empty()
        };
        let sub = if e.kind is Directory {
            walk_results(patterns, e.kind->Directory_0, true)
        } else {
            Seq::<Seq<char>>::empty()
        };
        let visited_sub = if e.kind is Directory {
            visited_listings(e.kind->Directory_0)
        } else {
            Seq::<Seq<DirEntry>>::empty()
        };
        let er_dl = entries_results(patterns, es.drop_last(), true);
        assert(entries_results(patterns, es, true) == er_dl + own + sub);
        lemma_multiset_commutative(er_dl + own, sub);
        lemma_multiset_commutative(er_dl, own);
        // The level's own matches gain the last entry's path exactly when it
        // matches.
        assert(lp.drop_last() =~= level_paths(es.drop_last()));
        assert(lp.last() == e.path@);
        if q(lp.last()) {
            assert(level_matches(patterns, es) == level_matches(patterns, es.drop_last()).push(
                e.path@,
            ));
            assert(own.to_multiset() =~= Multiset::empty().insert(e.path@)) by {
                assert(own =~= Seq::<Seq<char>>::empty().push(e.path@));
            }
            assert(level_matches(patterns, es).to_multiset() =~= level_matches(
                patterns,
                es.drop_last(),
            ).to_multiset().add(own.to_multiset()));
        } else {
            assert(level_matches(patterns, es) == level_matches(patterns, es.drop_last()));
            assert(own.to_multiset() =~= Multiset::<Seq<char>>::empty());
        }
        // The subtree's results are the union over its visited listings.
        if e.kind is Directory {
            lemma_recursive_union(patterns, e.kind->Directory_0);
        } else {
            assert(sub.to_multiset() =~= Multiset::<Seq<char>>::empty());
        }
        lemma_listings_matches_concat(patterns, entries_visited(es.drop_last()), visited_sub);
        assert(entries_visited(es) == entries_visited(es.drop_last()) + visited_sub);
        assert(entries_results(patterns, es, true).to_multiset() =~= level_matches(
            patterns,
            es,
        ).to_multiset().add(listings_matches(patterns, entries_visited(es))));
    }
}

} // verus!
