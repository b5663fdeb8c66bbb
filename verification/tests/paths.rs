use linegrep::resolver::resolve_globs;
use linegrep::resolver::DirEntry;
use linegrep::resolver::DirNode;
use linegrep::resolver::EntryKind;
use linegrep::resolver::GlobMatcher;
use linegrep::resolver::ResolveError;

fn file(path: &str) -> DirEntry {
    DirEntry { path: path.to_string(), kind: EntryKind::File }
}

fn dir(path: &str, node: DirNode) -> DirEntry {
    DirEntry { path: path.to_string(), kind: EntryKind::Directory(node) }
}

/// A tree with `Cargo.toml`, `Cargo.lock` and `src/main.rs`, listed from a
/// root called `.`.
fn sample_tree() -> DirNode {
    DirNode::Listed(vec![
        file("./Cargo.toml"),
        file("./Cargo.lock"),
        dir("./src", DirNode::Listed(vec![file("./src/main.rs")])),
    ])
}

#[test]
fn test_glob() {
    let textcases: Vec<(Vec<String>, DirNode, usize, bool)> = vec![
        (vec!["**/main.rs".to_string()], sample_tree(), 1, false),
        (vec!["./Cargo.*".to_string()], sample_tree(), 2, false),
        (
            vec!["./Cargo.*".to_string()],
            DirNode::Unreadable("notfound".to_string()),
            1,
            true,
        ),
    ];
    for (globs, root, len, want_err) in textcases {
        let result = resolve_globs(&globs, &root, true);
        match result {
            Ok(v) => {
                assert_eq!(v.len(), len);
                assert!(!want_err);
            }
            Err(e) => {
                let err = e.describe();
                assert!(want_err, "{err}");
            }
        }
    }
}

#[test]
fn non_recursive_resolution_keeps_to_the_top_level() {
    let root = sample_tree();
    let paths = resolve_globs(&vec!["./Cargo.*".to_string()], &root, false).unwrap();
    assert_eq!(paths, vec!["./Cargo.toml".to_string(), "./Cargo.lock".to_string()]);

    let none = resolve_globs(&vec!["**/main.rs".to_string()], &root, false).unwrap();
    assert_eq!(none.len(), 0);
}

#[test]
fn recursive_resolution_descends_into_subdirectories() {
    let root = sample_tree();
    let paths = resolve_globs(&vec!["**/main.rs".to_string()], &root, true).unwrap();
    assert_eq!(paths, vec!["./src/main.rs".to_string()]);
}

#[test]
fn missing_root_is_a_directory_read_error() {
    let root = DirNode::Unreadable("no such directory".to_string());
    let result = resolve_globs(&vec!["./Cargo.*".to_string()], &root, false);
    match result {
        Err(ResolveError::DirectoryRead(msg)) => assert_eq!(msg, "no such directory"),
        _ => panic!("expected a directory read error"),
    }
}

#[test]
fn malformed_glob_is_rejected_before_any_traversal() {
    let root = DirNode::Unreadable("never listed".to_string());
    let result = resolve_globs(&vec!["a[".to_string()], &root, true);
    match result {
        Err(ResolveError::GlobCompile(Some(expr), _)) => assert_eq!(expr, "a["),
        _ => panic!("expected a glob compile error"),
    }
}

#[test]
fn depth_first_order_interleaves_subtrees_with_the_level() {
    // x.txt matches, then the subtree of sub is walked before z.txt.
    let root = DirNode::Listed(vec![
        file("./x.txt"),
        dir("./sub", DirNode::Listed(vec![file("./sub/y.txt"), file("./sub/skip.rs")])),
        file("./z.txt"),
    ]);
    let paths = resolve_globs(&vec!["**/*.txt".to_string()], &root, true).unwrap();
    assert_eq!(
        paths,
        vec![
            "./x.txt".to_string(),
            "./sub/y.txt".to_string(),
            "./z.txt".to_string(),
        ]
    );
}

#[test]
fn matching_directories_are_still_descended_into() {
    // The directory itself matches and is recursed into regardless.
    let root = DirNode::Listed(vec![dir(
        "./notes",
        DirNode::Listed(vec![file("./notes/a"), file("./notes/b")]),
    )]);
    let paths = resolve_globs(&vec!["**".to_string()], &root, true).unwrap();
    assert_eq!(
        paths,
        vec![
            "./notes".to_string(),
            "./notes/a".to_string(),
            "./notes/b".to_string(),
        ]
    );
}

#[test]
fn first_unreadable_directory_aborts_the_walk() {
    let root = DirNode::Listed(vec![
        file("./a.txt"),
        dir("./bad", DirNode::Unreadable("permission denied".to_string())),
        dir("./worse", DirNode::Unreadable("also broken".to_string())),
    ]);
    let result = resolve_globs(&vec!["**/*.txt".to_string()], &root, true);
    match result {
        Err(ResolveError::DirectoryRead(msg)) => assert_eq!(msg, "permission denied"),
        _ => panic!("expected a directory read error"),
    }
    // Without recursion the unreadable subdirectories are never visited.
    let flat = resolve_globs(&vec!["**/*.txt".to_string()], &root, false).unwrap();
    assert_eq!(flat, vec!["./a.txt".to_string()]);
}

#[test]
fn a_compiled_matcher_is_reusable_across_traversals() {
    let m = GlobMatcher::compile(&vec!["**/*.rs".to_string()]).unwrap();
    let one = DirNode::Listed(vec![file("./a.rs"), file("./b.txt")]);
    let two = DirNode::Listed(vec![file("./c.rs")]);
    assert_eq!(m.resolve(&one, false).unwrap(), vec!["./a.rs".to_string()]);
    assert_eq!(m.resolve(&two, false).unwrap(), vec!["./c.rs".to_string()]);
}

#[test]
fn any_expression_of_the_set_may_match() {
    let root = DirNode::Listed(vec![file("./a.rs"), file("./b.txt"), file("./c.md")]);
    let paths =
        resolve_globs(&vec!["./*.rs".to_string(), "./*.md".to_string()], &root, false).unwrap();
    assert_eq!(paths, vec!["./a.rs".to_string(), "./c.md".to_string()]);
}
