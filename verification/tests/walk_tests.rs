use hyper_fs::glob::glob_sync;
use hyper_fs::paths::split_path;
use hyper_fs::readdir::readdir_sync;
use hyper_fs::readdir::ReaddirOptions;
use hyper_fs::EntryKind;
use hyper_fs::FsSnapshot;
use hyper_fs::GlobOptions;
use hyper_fs::GlobResult;

fn sample_tree() -> FsSnapshot {
    let mut t = FsSnapshot::new();
    assert!(t.add_entry("a", EntryKind::Directory));
    assert!(t.add_entry("a/b.txt", EntryKind::File));
    assert!(t.add_entry("a/c", EntryKind::Directory));
    assert!(t.add_entry("a/c/d.txt", EntryKind::File));
    t
}

fn glob_paths_of(t: &FsSnapshot, pattern: &str, options: Option<GlobOptions>) -> Vec<String> {
    match glob_sync(t, pattern, options).unwrap() {
        GlobResult::Paths(mut v) => {
            v.sort();
            v
        },
        GlobResult::Entries(_) => panic!("expected plain paths"),
    }
}

fn rd_opts(recursive: bool, skip_hidden: bool, concurrency: Option<u32>) -> Option<ReaddirOptions> {
    Some(ReaddirOptions {
        skip_hidden: Some(skip_hidden),
        concurrency,
        recursive: Some(recursive),
    })
}

#[test]
fn glob_scenario_tree_yields_both_files() {
    let t = sample_tree();
    let v = glob_paths_of(&t, "a/**/*.txt", None);
    assert_eq!(v, vec!["a/b.txt".to_string(), "a/c/d.txt".to_string()]);
}

#[test]
fn suffix_glob_yields_no_directory() {
    let t = sample_tree();
    let v = glob_paths_of(&t, "**/*.txt", None);
    assert_eq!(v, vec!["a/b.txt".to_string(), "a/c/d.txt".to_string()]);
}

#[test]
fn one_level_glob_yields_files_and_subdirectories() {
    let t = sample_tree();
    let v = glob_paths_of(&t, "a/*", None);
    assert_eq!(v, vec!["a/b.txt".to_string(), "a/c".to_string()]);
}

#[test]
fn double_star_yields_every_descendant_but_never_the_root() {
    let t = sample_tree();
    let v = glob_paths_of(&t, "**", None);
    assert_eq!(
        v,
        vec![
            "a".to_string(),
            "a/b.txt".to_string(),
            "a/c".to_string(),
            "a/c/d.txt".to_string(),
        ]
    );
    assert!(!v.contains(&String::new()));
}

#[test]
fn glob_exclude_overlay_drops_matches() {
    let t = sample_tree();
    let opts = GlobOptions {
        cwd: None,
        with_file_types: None,
        exclude: Some(vec!["a/c/*".to_string()]),
        concurrency: None,
        git_ignore: None,
    };
    let v = glob_paths_of(&t, "**/*.txt", Some(opts));
    assert_eq!(v, vec!["a/b.txt".to_string()]);
}

#[test]
fn glob_with_types_reports_kinds() {
    let t = sample_tree();
    match glob_sync(&t, "a/*", Some(GlobOptions {
        cwd: None,
        with_file_types: Some(true),
        exclude: None,
        concurrency: None,
        git_ignore: None,
    }))
    .unwrap()
    {
        GlobResult::Entries(es) => {
            let mut seen: Vec<(String, String, u8)> = es
                .iter()
                .map(|d| (d.name.clone(), d.parent_path.clone(), d.file_type))
                .collect();
            seen.sort();
            assert_eq!(
                seen,
                vec![
                    ("b.txt".to_string(), "a".to_string(), 1u8),
                    ("c".to_string(), "a".to_string(), 2u8),
                ]
            );
        },
        GlobResult::Paths(_) => panic!("expected typed entries"),
    }
}

#[test]
fn readdir_non_recursive_lists_direct_children() {
    let t = sample_tree();
    let v = readdir_sync(&t, "a", rd_opts(false, false, None)).unwrap();
    let mut names: Vec<String> = v.iter().map(|d| d.name.clone()).collect();
    names.sort();
    assert_eq!(names, vec!["b.txt".to_string(), "c".to_string()]);
}

#[test]
fn readdir_recursive_lists_the_subtree() {
    let t = sample_tree();
    let v = readdir_sync(&t, "a", rd_opts(true, false, None)).unwrap();
    let mut paths: Vec<String> = v.iter().map(|d| d.path.clone()).collect();
    paths.sort();
    assert_eq!(
        paths,
        vec!["a/b.txt".to_string(), "a/c".to_string(), "a/c/d.txt".to_string()]
    );
}

#[test]
fn readdir_missing_root_fails_not_found() {
    let t = sample_tree();
    let e = readdir_sync(&t, "missing", None).unwrap_err();
    assert!(matches!(e.kind, hyper_fs::errors::FsErrorKind::NotFound));
    assert_eq!(e.message, "ENOENT: no such file or directory, scandir 'missing'");
}

#[test]
fn readdir_skip_hidden_prunes_descent() {
    let mut t = FsSnapshot::new();
    assert!(t.add_entry(".git", EntryKind::Directory));
    assert!(t.add_entry(".git/config", EntryKind::File));
    assert!(t.add_entry("src", EntryKind::Directory));
    assert!(t.add_entry("src/lib.rs", EntryKind::File));
    let v = readdir_sync(&t, "", rd_opts(true, true, None)).unwrap();
    let mut paths: Vec<String> = v.iter().map(|d| d.path.clone()).collect();
    paths.sort();
    assert_eq!(paths, vec!["src".to_string(), "src/lib.rs".to_string()]);
}

#[test]
fn traversal_result_set_does_not_depend_on_concurrency() {
    let t = sample_tree();
    let v1 = readdir_sync(&t, "a", rd_opts(true, false, Some(1))).unwrap();
    let v8 = readdir_sync(&t, "a", rd_opts(true, false, Some(8))).unwrap();
    let mut p1: Vec<String> = v1.iter().map(|d| d.path.clone()).collect();
    let mut p8: Vec<String> = v8.iter().map(|d| d.path.clone()).collect();
    p1.sort();
    p8.sort();
    assert_eq!(p1, p8);
    let g1 = glob_paths_of(&t, "**", Some(GlobOptions {
        cwd: None,
        with_file_types: None,
        exclude: None,
        concurrency: Some(1),
        git_ignore: None,
    }));
    let g8 = glob_paths_of(&t, "**", Some(GlobOptions {
        cwd: None,
        with_file_types: None,
        exclude: None,
        concurrency: Some(8),
        git_ignore: None,
    }));
    assert_eq!(g1, g8);
}

#[test]
fn recursive_listing_minus_directories_is_the_walk_file_set() {
    let t = sample_tree();
    let listed = readdir_sync(&t, "", rd_opts(true, false, None)).unwrap();
    let mut files_listed: Vec<String> = listed
        .iter()
        .filter(|d| !d.is_dir)
        .map(|d| d.path.clone())
        .collect();
    files_listed.sort();
    let walked = match glob_sync(&t, "**", Some(GlobOptions {
        cwd: None,
        with_file_types: Some(true),
        exclude: None,
        concurrency: None,
        git_ignore: None,
    }))
    .unwrap()
    {
        GlobResult::Entries(es) => es,
        GlobResult::Paths(_) => panic!("expected typed entries"),
    };
    let mut files_walked: Vec<String> = walked
        .iter()
        .filter(|d| d.file_type != 2)
        .map(|d| {
            if d.parent_path.is_empty() {
                d.name.clone()
            } else {
                format!("{}/{}", d.parent_path, d.name)
            }
        })
        .collect();
    files_walked.sort();
    assert_eq!(files_listed, files_walked);
}

#[test]
fn invalid_glob_pattern_reports_before_any_walk() {
    let t = sample_tree();
    let e = match glob_sync(&t, "a[", None) {
        Err(e) => e,
        Ok(_) => panic!("expected a refusal"),
    };
    assert!(matches!(e.kind, hyper_fs::errors::FsErrorKind::InvalidPattern));
}

#[test]
fn files_only_listing_keeps_regular_files_alone() {
    let mut t = sample_tree();
    assert!(t.add_entry("a/link", EntryKind::Symlink));
    assert!(t.add_entry("a/pipe", EntryKind::Fifo));
    assert_eq!(
        hyper_fs::readdir::ls(&t),
        vec!["a/b.txt".to_string(), "a/c/d.txt".to_string()]
    );
    assert_eq!(hyper_fs::readdir::ls(&FsSnapshot::new()), Vec::<String>::new());
}

#[test]
fn lookup_after_building_sees_every_entry() {
    let t = sample_tree();
    assert!(matches!(t.lookup(&split_path("a")), Some(EntryKind::Directory)));
    assert!(matches!(t.lookup(&split_path("a/c/d.txt")), Some(EntryKind::File)));
    assert!(t.lookup(&split_path("a/x")).is_none());
}
