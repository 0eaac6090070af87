use list_project::Entry;
use list_project::Walker;
use list_project::path_should_appear;
use list_project::starts_with_dot;

/// Runs a walk over a simulated filesystem: `tree` lists each readable
/// directory with its entries; a directory not listed is unreadable and
/// yields an empty listing. Returns the walk's output and the directories
/// whose listings were requested, in request order.
fn drive(root: &str, depth: u32, tree: &[(&str, &[(&str, bool)])]) -> (Vec<String>, Vec<String>) {
    let mut walker = Walker::new(root.to_string(), depth);
    let mut requested: Vec<String> = Vec::new();
    while let Some(dir) = walker.next_request() {
        requested.push(dir.clone());
        let entries: Vec<Entry> = tree
            .iter()
            .find(|(name, _)| *name == dir)
            .map(|(_, listed)| {
                listed
                    .iter()
                    .map(|(path, is_dir)| Entry { path: path.to_string(), is_dir: *is_dir })
                    .collect()
            })
            .unwrap_or_default();
        walker.supply(entries);
    }
    (walker.results(), requested)
}

#[test]
fn depth_zero_yields_nothing() {
    let (found, requested) = drive("root", 0, &[("root", &[("root/a", true)])]);
    assert_eq!(found, Vec::<String>::new());
    assert_eq!(requested, Vec::<String>::new());
}

#[test]
fn hidden_and_plain_files_excluded() {
    let tree: &[(&str, &[(&str, bool)])] = &[(
        "root",
        &[("root/a", true), ("root/.hidden", true), ("root/f", false)],
    )];
    let (found, _) = drive("root", 1, tree);
    assert_eq!(found, vec!["root/a".to_string()]);
}

#[test]
fn parent_precedes_child() {
    let tree: &[(&str, &[(&str, bool)])] = &[
        ("root", &[("root/a", true)]),
        ("root/a", &[("root/a/b", true)]),
    ];
    let (found, _) = drive("root", 2, tree);
    assert_eq!(found, vec!["root/a".to_string(), "root/a/b".to_string()]);
}

#[test]
fn depth_bound_cuts_third_level() {
    let tree: &[(&str, &[(&str, bool)])] = &[
        ("root", &[("root/a", true)]),
        ("root/a", &[("root/a/b", true)]),
        ("root/a/b", &[("root/a/b/c", true)]),
    ];
    let (found, requested) = drive("root", 2, tree);
    assert_eq!(found, vec!["root/a".to_string(), "root/a/b".to_string()]);
    assert_eq!(requested, vec!["root".to_string(), "root/a".to_string()]);
}

#[test]
fn unreadable_root_yields_nothing() {
    let (found, requested) = drive("missing", 2, &[]);
    assert_eq!(found, Vec::<String>::new());
    assert_eq!(requested, vec!["missing".to_string()]);
}

#[test]
fn subtree_stands_between_siblings() {
    let tree: &[(&str, &[(&str, bool)])] = &[
        ("root", &[("root/a", true), ("root/b", true)]),
        ("root/a", &[("root/a/x", true)]),
        ("root/b", &[("root/b/y", true)]),
    ];
    let (found, _) = drive("root", 2, tree);
    assert_eq!(
        found,
        vec![
            "root/a".to_string(),
            "root/a/x".to_string(),
            "root/b".to_string(),
            "root/b/y".to_string(),
        ]
    );
}

#[test]
fn unreadable_subdirectory_contributes_nothing() {
    let tree: &[(&str, &[(&str, bool)])] = &[
        ("root", &[("root/a", true), ("root/b", true)]),
        ("root/b", &[("root/b/y", true)]),
    ];
    let (found, _) = drive("root", 2, tree);
    assert_eq!(
        found,
        vec!["root/a".to_string(), "root/b".to_string(), "root/b/y".to_string()]
    );
}

#[test]
fn dot_detection_looks_at_final_component() {
    assert!(starts_with_dot(&".hidden".to_string()));
    assert!(starts_with_dot(&"root/.hidden".to_string()));
    assert!(!starts_with_dot(&"root/visible".to_string()));
    assert!(!starts_with_dot(&".dir/visible".to_string()));
    assert!(!starts_with_dot(&String::new()));
    assert!(!starts_with_dot(&"root/".to_string()));
}

#[test]
fn appearance_requires_directory_and_visibility() {
    assert!(path_should_appear(&"root/a".to_string(), true));
    assert!(!path_should_appear(&"root/a".to_string(), false));
    assert!(!path_should_appear(&"root/.a".to_string(), true));
}

#[test]
fn awaiting_tracks_the_protocol() {
    let mut walker = Walker::new("root".to_string(), 1);
    assert!(!walker.awaiting());
    let first = walker.next_request();
    assert_eq!(first, Some("root".to_string()));
    assert!(walker.awaiting());
    walker.supply(Vec::new());
    assert!(!walker.awaiting());
    assert_eq!(walker.next_request(), None);
}
