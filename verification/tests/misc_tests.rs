use hyper_fs::access::access_check;
use hyper_fs::access::F_OK;
use hyper_fs::access::R_OK;
use hyper_fs::access::W_OK;
use hyper_fs::access::X_OK;
use hyper_fs::fileflags::parse_read_flags;
use hyper_fs::fileflags::parse_write_flags;
use hyper_fs::mkdtempop::fill_fallback;
use hyper_fs::mkdtempop::suffix_from_bytes;
use hyper_fs::paths::join_segs;
use hyper_fs::paths::split_path;
use hyper_fs::paths::strip_verbatim_prefix;
use hyper_fs::rm::rm_retry_delay_ms;
use hyper_fs::rm::rm_should_retry;
use hyper_fs::types::get_file_type_id;
use hyper_fs::Dirent;
use hyper_fs::RmOptions;

#[test]
fn split_drops_empty_segments_and_join_restores() {
    let v = split_path("a//b/c/");
    assert_eq!(v, vec!["a".to_string(), "b".to_string(), "c".to_string()]);
    assert_eq!(join_segs(&v), "a/b/c");
    assert_eq!(split_path(""), Vec::<String>::new());
    assert_eq!(join_segs(&Vec::new()), "");
}

#[test]
fn existence_check_alone_always_passes_on_a_found_entry() {
    assert!(access_check(F_OK, 0, 1000, 1000, 0, 0));
}

#[test]
fn owner_group_other_bits_grant_in_that_order() {
    assert!(access_check(R_OK, 0o400, 1000, 1000, 1000, 2000));
    assert!(!access_check(W_OK, 0o400, 1000, 1000, 1000, 2000));
    assert!(access_check(W_OK, 0o020, 1000, 1000, 2000, 1000));
    assert!(access_check(R_OK, 0o004, 1000, 1000, 2000, 2000));
    assert!(!access_check(R_OK, 0o040, 1000, 1000, 2000, 2000));
}

#[test]
fn the_superuser_reads_anything_but_needs_an_execute_bit() {
    assert!(access_check(R_OK | W_OK, 0, 0, 0, 1000, 1000));
    assert!(!access_check(X_OK, 0o644, 0, 0, 1000, 1000));
    assert!(access_check(X_OK, 0o001, 0, 0, 1000, 1000));
}

#[test]
fn suffix_takes_one_letter_or_digit_per_byte() {
    assert_eq!(suffix_from_bytes(&[0, 25, 26, 51, 52, 61]), "AZaz09");
    assert_eq!(suffix_from_bytes(&[62, 63]), "AB");
    assert_eq!(suffix_from_bytes(&[]), "");
}

#[test]
fn fallback_bytes_are_deterministic_in_the_seed() {
    let a = fill_fallback(42, 6);
    let b = fill_fallback(42, 6);
    let c = fill_fallback(43, 6);
    assert_eq!(a.len(), 6);
    assert_eq!(a, b);
    assert_ne!(a, c);
}

#[test]
fn write_flags_cover_create_truncate_append_and_exclusive() {
    let w = parse_write_flags("w");
    assert!(w.write && w.create && w.truncate && !w.append && !w.create_new);
    let a = parse_write_flags("a");
    assert!(a.append && a.create && !a.truncate && !a.create_new);
    let wx = parse_write_flags("wx");
    assert!(wx.write && wx.create_new && !wx.create);
    let xa = parse_write_flags("xa");
    assert!(xa.append && xa.create_new);
}

#[test]
fn read_flags_cover_plain_update_and_append_reads() {
    let r = parse_read_flags("r");
    assert!(r.read && !r.write && !r.append && !r.create);
    let rp = parse_read_flags("r+");
    assert!(rp.read && rp.write && !rp.create);
    let ap = parse_read_flags("a+");
    assert!(ap.read && ap.append && ap.create && !ap.create_new);
    let wp = parse_read_flags("w+");
    assert!(wp.read && wp.write && wp.create && wp.truncate);
}

#[test]
fn verbatim_prefixes_are_stripped() {
    assert_eq!(strip_verbatim_prefix("\\\\?\\C:\\x".to_string()), "C:\\x");
    assert_eq!(
        strip_verbatim_prefix("\\\\?\\UNC\\srv\\share".to_string()),
        "\\\\srv\\share"
    );
    assert_eq!(strip_verbatim_prefix("plain/path".to_string()), "plain/path");
}

#[test]
fn retry_decision_follows_the_bound() {
    assert!(!rm_should_retry(0, &None));
    let opts = Some(RmOptions {
        force: None,
        max_retries: Some(2),
        recursive: None,
        retry_delay: Some(5),
        concurrency: None,
    });
    assert!(rm_should_retry(0, &opts));
    assert!(rm_should_retry(1, &opts));
    assert!(!rm_should_retry(2, &opts));
    assert_eq!(rm_retry_delay_ms(&opts), 5);
    assert_eq!(rm_retry_delay_ms(&None), 100);
}

#[test]
fn typed_entries_answer_for_their_kind() {
    let d = Dirent { name: "n".to_string(), parent_path: "p".to_string(), file_type: 2 };
    assert!(d.is_directory());
    assert!(!d.is_file());
    assert!(!d.is_symbolic_link());
    assert_eq!(d.path(), "p");
    let f = Dirent { name: "n".to_string(), parent_path: String::new(), file_type: 1 };
    assert!(f.is_file());
    let s = Dirent { name: "n".to_string(), parent_path: String::new(), file_type: 3 };
    assert!(s.is_symbolic_link());
    let b = Dirent { name: "n".to_string(), parent_path: String::new(), file_type: 4 };
    assert!(b.is_block_device());
    let c = Dirent { name: "n".to_string(), parent_path: String::new(), file_type: 5 };
    assert!(c.is_character_device());
    let p = Dirent { name: "n".to_string(), parent_path: String::new(), file_type: 6 };
    assert!(p.is_fifo());
    let k = Dirent { name: "n".to_string(), parent_path: String::new(), file_type: 7 };
    assert!(k.is_socket());
}

#[test]
fn file_type_identifiers_follow_the_flag_order() {
    assert_eq!(get_file_type_id(true, false, false, false, false, false, false), 1);
    assert_eq!(get_file_type_id(false, true, false, false, false, false, false), 2);
    assert_eq!(get_file_type_id(false, false, true, false, false, false, false), 3);
    assert_eq!(get_file_type_id(false, false, false, true, false, false, false), 4);
    assert_eq!(get_file_type_id(false, false, false, false, true, false, false), 5);
    assert_eq!(get_file_type_id(false, false, false, false, false, true, false), 6);
    assert_eq!(get_file_type_id(false, false, false, false, false, false, true), 7);
    assert_eq!(get_file_type_id(false, false, false, false, false, false, false), 0);
}
