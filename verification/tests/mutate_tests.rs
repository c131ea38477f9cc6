use hyper_fs::cp::cp_sync;
use hyper_fs::mkdirop::mkdir_sync;
use hyper_fs::paths::split_path;
use hyper_fs::readdir::readdir_sync;
use hyper_fs::readdir::ReaddirOptions;
use hyper_fs::rm::rm_sync;
use hyper_fs::CpOptions;
use hyper_fs::EntryKind;
use hyper_fs::FsSnapshot;
use hyper_fs::MkdirOptions;
use hyper_fs::RmOptions;

fn sample_tree() -> FsSnapshot {
    let mut t = FsSnapshot::new();
    assert!(t.add_entry("a", EntryKind::Directory));
    assert!(t.add_entry("a/b.txt", EntryKind::File));
    assert!(t.add_entry("a/c", EntryKind::Directory));
    assert!(t.add_entry("a/c/d.txt", EntryKind::File));
    t
}

fn rm_opts(force: bool, recursive: bool) -> Option<RmOptions> {
    Some(RmOptions {
        force: Some(force),
        max_retries: None,
        recursive: Some(recursive),
        retry_delay: None,
        concurrency: None,
    })
}

fn cp_opts(recursive: bool) -> Option<CpOptions> {
    Some(CpOptions {
        recursive: Some(recursive),
        force: None,
        error_on_exist: None,
        preserve_timestamps: None,
        dereference: None,
        verbatim_symlinks: None,
        concurrency: None,
    })
}

fn listing(t: &FsSnapshot, root: &str) -> Vec<String> {
    let mut v: Vec<String> = readdir_sync(t, root, Some(ReaddirOptions {
        skip_hidden: None,
        concurrency: None,
        recursive: Some(true),
    }))
    .unwrap()
    .iter()
    .map(|d| d.path.clone())
    .collect();
    v.sort();
    v
}

#[test]
fn recursive_removal_leaves_nothing_behind() {
    let t = sample_tree();
    let t2 = rm_sync(&t, "a", rm_opts(false, true)).unwrap();
    assert!(t2.lookup(&split_path("a")).is_none());
    assert!(t2.lookup(&split_path("a/b.txt")).is_none());
    assert!(t2.lookup(&split_path("a/c/d.txt")).is_none());
    let e = readdir_sync(&t2, "a", None).unwrap_err();
    assert_eq!(e.message, "ENOENT: no such file or directory, scandir 'a'");
}

#[test]
fn removing_a_file_keeps_its_siblings() {
    let t = sample_tree();
    let t2 = rm_sync(&t, "a/b.txt", rm_opts(false, false)).unwrap();
    assert!(t2.lookup(&split_path("a/b.txt")).is_none());
    assert!(matches!(t2.lookup(&split_path("a/c/d.txt")), Some(EntryKind::File)));
}

#[test]
fn non_recursive_removal_of_a_full_directory_fails() {
    let t = sample_tree();
    let e = rm_sync(&t, "a", rm_opts(false, false)).unwrap_err();
    assert!(matches!(e.kind, hyper_fs::errors::FsErrorKind::DirectoryNotEmpty));
    assert_eq!(e.message, "ENOTEMPTY: directory not empty, rm 'a'");
}

#[test]
fn missing_path_fails_unless_forced() {
    let t = sample_tree();
    let e = rm_sync(&t, "nope", rm_opts(false, false)).unwrap_err();
    assert!(matches!(e.kind, hyper_fs::errors::FsErrorKind::NotFound));
    assert_eq!(e.message, "ENOENT: no such file or directory, rm 'nope'");
    let t2 = rm_sync(&t, "nope", rm_opts(true, false)).unwrap();
    assert_eq!(listing(&t2, "a"), listing(&t, "a"));
}

#[test]
fn make_then_remove_twice_is_silent_the_second_time() {
    let t = FsSnapshot::new();
    let (t2, first) = mkdir_sync(&t, "x/y", Some(MkdirOptions {
        recursive: Some(true),
        mode: None,
    }))
    .unwrap();
    assert_eq!(first, Some("x".to_string()));
    assert!(matches!(t2.lookup(&split_path("x/y")), Some(EntryKind::Directory)));
    let t3 = rm_sync(&t2, "x/y", rm_opts(true, true)).unwrap();
    assert!(t3.lookup(&split_path("x/y")).is_none());
    let t4 = rm_sync(&t3, "x/y", rm_opts(true, true)).unwrap();
    assert!(t4.lookup(&split_path("x/y")).is_none());
    assert!(matches!(t4.lookup(&split_path("x")), Some(EntryKind::Directory)));
}

#[test]
fn mkdir_without_recursive_needs_its_parent() {
    let t = FsSnapshot::new();
    let e = mkdir_sync(&t, "x/y", Some(MkdirOptions { recursive: Some(false), mode: None }))
        .unwrap_err();
    assert_eq!(e.message, "ENOENT: no such file or directory, mkdir 'x/y'");
    let (t2, first) =
        mkdir_sync(&t, "x", Some(MkdirOptions { recursive: Some(false), mode: None })).unwrap();
    assert!(first.is_none());
    let e2 = mkdir_sync(&t2, "x", Some(MkdirOptions { recursive: Some(false), mode: None }))
        .unwrap_err();
    assert_eq!(e2.message, "EEXIST: file already exists, mkdir 'x'");
}

#[test]
fn mkdir_under_a_file_is_not_a_directory() {
    let mut t = FsSnapshot::new();
    assert!(t.add_entry("f", EntryKind::File));
    let e = mkdir_sync(&t, "f/sub", Some(MkdirOptions { recursive: Some(true), mode: None }))
        .unwrap_err();
    assert_eq!(e.message, "ENOTDIR: not a directory, mkdir 'f/sub'");
}

#[test]
fn recursive_copy_into_a_fresh_destination_mirrors_the_source() {
    let t = sample_tree();
    let t2 = cp_sync(&t, "a", "z", cp_opts(true)).unwrap();
    let src_rel: Vec<String> = listing(&t2, "a")
        .iter()
        .map(|p| p["a".len()..].to_string())
        .collect();
    let dst_rel: Vec<String> = listing(&t2, "z")
        .iter()
        .map(|p| p["z".len()..].to_string())
        .collect();
    assert_eq!(src_rel, dst_rel);
    assert!(matches!(t2.lookup(&split_path("z/c/d.txt")), Some(EntryKind::File)));
}

#[test]
fn copy_of_a_directory_needs_recursive() {
    let t = sample_tree();
    let e = cp_sync(&t, "a", "z", cp_opts(false)).unwrap_err();
    assert!(matches!(e.kind, hyper_fs::errors::FsErrorKind::IsADirectory));
    assert_eq!(
        e.message,
        "ERR_FS_EISDIR: Path is a directory. To copy a directory set the 'recursive' option to true, cp 'a' -> 'z'"
    );
}

#[test]
fn copy_of_a_missing_source_fails_not_found() {
    let t = sample_tree();
    let e = cp_sync(&t, "nope", "z", cp_opts(false)).unwrap_err();
    assert_eq!(e.message, "ENOENT: no such file or directory, cp 'nope' -> 'z'");
}

#[test]
fn copy_overwrites_by_default_and_keeps_without_force() {
    let mut t = FsSnapshot::new();
    assert!(t.add_entry("src.txt", EntryKind::File));
    assert!(t.add_entry("old", EntryKind::Symlink));
    let t2 = cp_sync(&t, "src.txt", "old", cp_opts(false)).unwrap();
    assert!(matches!(t2.lookup(&split_path("old")), Some(EntryKind::File)));
    let keep = Some(CpOptions {
        recursive: None,
        force: Some(false),
        error_on_exist: None,
        preserve_timestamps: None,
        dereference: None,
        verbatim_symlinks: None,
        concurrency: None,
    });
    let t3 = cp_sync(&t, "src.txt", "old", keep).unwrap();
    assert!(matches!(t3.lookup(&split_path("old")), Some(EntryKind::Symlink)));
}

#[test]
fn copy_refuses_an_existing_destination_under_error_on_exist() {
    let mut t = FsSnapshot::new();
    assert!(t.add_entry("src.txt", EntryKind::File));
    assert!(t.add_entry("old", EntryKind::File));
    let opts = Some(CpOptions {
        recursive: None,
        force: None,
        error_on_exist: Some(true),
        preserve_timestamps: None,
        dereference: None,
        verbatim_symlinks: None,
        concurrency: None,
    });
    let e = cp_sync(&t, "src.txt", "old", opts).unwrap_err();
    assert_eq!(e.message, "EEXIST: file already exists, cp 'src.txt' -> 'old'");
}

#[test]
fn copy_creates_missing_destination_parents() {
    let mut t = FsSnapshot::new();
    assert!(t.add_entry("f.txt", EntryKind::File));
    let t2 = cp_sync(&t, "f.txt", "p/q/f.txt", cp_opts(false)).unwrap();
    assert!(matches!(t2.lookup(&split_path("p")), Some(EntryKind::Directory)));
    assert!(matches!(t2.lookup(&split_path("p/q")), Some(EntryKind::Directory)));
    assert!(matches!(t2.lookup(&split_path("p/q/f.txt")), Some(EntryKind::File)));
}

#[test]
fn copy_merges_into_an_existing_directory() {
    let mut t = sample_tree();
    assert!(t.add_entry("z", EntryKind::Directory));
    assert!(t.add_entry("z/keep.txt", EntryKind::File));
    let t2 = cp_sync(&t, "a", "z", cp_opts(true)).unwrap();
    assert!(matches!(t2.lookup(&split_path("z/keep.txt")), Some(EntryKind::File)));
    assert!(matches!(t2.lookup(&split_path("z/b.txt")), Some(EntryKind::File)));
    assert!(matches!(t2.lookup(&split_path("z/c/d.txt")), Some(EntryKind::File)));
}

#[test]
fn copy_with_dereference_and_a_link_free_source_is_exact() {
    let t = sample_tree();
    let opts = Some(CpOptions {
        recursive: Some(true),
        force: None,
        error_on_exist: None,
        preserve_timestamps: None,
        dereference: Some(true),
        verbatim_symlinks: None,
        concurrency: None,
    });
    let t2 = cp_sync(&t, "a", "z", opts).unwrap();
    assert!(matches!(t2.lookup(&split_path("z/b.txt")), Some(EntryKind::File)));
    assert!(matches!(t2.lookup(&split_path("z/c/d.txt")), Some(EntryKind::File)));
    assert!(matches!(t2.lookup(&split_path("a/b.txt")), Some(EntryKind::File)));
}

#[test]
fn copy_under_a_file_destination_is_not_a_directory() {
    let mut t = FsSnapshot::new();
    assert!(t.add_entry("f.txt", EntryKind::File));
    assert!(t.add_entry("blocker", EntryKind::File));
    let e = cp_sync(&t, "f.txt", "blocker/out.txt", cp_opts(false)).unwrap_err();
    assert!(matches!(e.kind, hyper_fs::errors::FsErrorKind::NotADirectory));
}
