use path_helper::path::path_buf_from_obj;
use path_helper::path::path_buf_to_obj;
use path_helper::path::path_clone;
use path_helper::path::path_create;
use path_helper::path::path_empty;
use path_helper::path::path_ends_with;
use path_helper::path::path_extension;
use path_helper::path::path_file_name;
use path_helper::path::path_file_stem;
use path_helper::path::path_has_root;
use path_helper::path::path_is_absolute;
use path_helper::path::path_is_relative;
use path_helper::path::path_join;
use path_helper::path::path_obj_absent;
use path_helper::path::path_obj_is_present;
use path_helper::path::path_parent;
use path_helper::path::path_pop;
use path_helper::path::path_push;
use path_helper::path::path_set_extension;
use path_helper::path::path_set_file_name;
use path_helper::path::path_starts_with;
use path_helper::path::path_strip_prefix;
use path_helper::path::path_temp_obj;
use path_helper::path::path_to_str;
use path_helper::path::path_with_extension;
use path_helper::path::path_with_file_name;
use path_helper::path::PathBuffer;
use path_helper::path::PathObj;

fn view(bytes: &[u8]) -> PathObj {
    path_temp_obj(&bytes.to_vec())
}

fn buf(bytes: &[u8]) -> PathBuffer {
    path_create(&bytes.to_vec()).expect("valid UTF-8")
}

fn content(b: &PathBuffer) -> Vec<u8> {
    path_to_str(&path_buf_to_obj(b)).expect("present")
}

#[test]
fn round_trip_create_read_back() {
    let bytes = b"/tmp/x/a.txt".to_vec();
    let b = path_create(&bytes).expect("valid UTF-8");
    let v = path_buf_to_obj(&b);
    assert!(path_obj_is_present(&v));
    assert_eq!(path_to_str(&v).unwrap(), bytes);
}

#[test]
fn create_from_invalid_utf8_yields_absent() {
    // 0xC3 starts a two-byte sequence; '(' is no continuation byte
    let bad = vec![0x61, 0xC3, 0x28, 0x62];
    assert!(path_create(&bad).is_none());
    let v = path_temp_obj(&bad);
    assert!(!path_obj_is_present(&v));
}

#[test]
fn create_from_overlong_encoding_yields_absent() {
    // 0xC0 0xAF is an overlong spelling of '/'
    let bad = vec![0xC0, 0xAF];
    assert!(path_create(&bad).is_none());
}

#[test]
fn push_then_pop_restores_content() {
    let mut p = buf(b"a/b");
    path_push(&mut p, &view(b"c"));
    assert_eq!(content(&p), b"a/b/c".to_vec());
    assert!(path_pop(&mut p));
    assert_eq!(content(&p), b"a/b".to_vec());
}

#[test]
fn push_then_pop_on_root_and_empty() {
    let mut root = buf(b"/");
    path_push(&mut root, &view(b"c"));
    assert_eq!(content(&root), b"/c".to_vec());
    assert!(path_pop(&mut root));
    assert_eq!(content(&root), b"/".to_vec());

    let mut e = path_empty();
    path_push(&mut e, &view(b"c"));
    assert_eq!(content(&e), b"c".to_vec());
    assert!(path_pop(&mut e));
    assert_eq!(content(&e), b"".to_vec());
    assert!(!path_pop(&mut e));
}

#[test]
fn pop_without_component_reports_false() {
    let mut root = buf(b"/");
    assert!(!path_pop(&mut root));
    assert_eq!(content(&root), b"/".to_vec());
}

#[test]
fn pop_collapses_repeated_separators() {
    let mut p = buf(b"a//b");
    assert!(path_pop(&mut p));
    assert_eq!(content(&p), b"a".to_vec());
}

#[test]
fn push_absolute_replaces() {
    let mut p = buf(b"a");
    path_push(&mut p, &view(b"/x"));
    assert_eq!(content(&p), b"/x".to_vec());
}

#[test]
fn join_then_strip_prefix_restores_tail() {
    let a = view(b"/usr");
    let b = view(b"lib/x");
    let joined = path_join(&a, &b);
    assert_eq!(content(&joined), b"/usr/lib/x".to_vec());
    let jv = path_buf_to_obj(&joined);
    let stripped = path_strip_prefix(&jv, &a);
    assert!(path_obj_is_present(&stripped));
    assert_eq!(path_to_str(&stripped).unwrap(), b"lib/x".to_vec());
}

#[test]
fn strip_prefix_failures_are_absent() {
    assert!(!path_obj_is_present(&path_strip_prefix(&view(b"/a/b"), &view(b"b"))));
    assert!(!path_obj_is_present(&path_strip_prefix(&view(b"a/b"), &view(b"/a"))));
    assert!(!path_obj_is_present(&path_strip_prefix(&view(b"/ab/c"), &view(b"/a"))));
}

#[test]
fn strip_prefix_of_whole_path_is_present_empty() {
    let stripped = path_strip_prefix(&view(b"a/b"), &view(b"a/b"));
    assert!(path_obj_is_present(&stripped));
    assert_eq!(path_to_str(&stripped).unwrap(), b"".to_vec());
}

#[test]
fn parent_of_single_relative_component_is_absent() {
    let parent = path_parent(&view(b"file.txt"));
    assert!(!path_obj_is_present(&parent));
    assert!(path_to_str(&parent).is_none());
}

#[test]
fn parent_walks_up_and_stops_at_root() {
    let p1 = path_parent(&view(b"/tmp/x"));
    assert_eq!(path_to_str(&p1).unwrap(), b"/tmp".to_vec());
    let p2 = path_parent(&view(b"/tmp"));
    assert_eq!(path_to_str(&p2).unwrap(), b"/".to_vec());
    let p3 = path_parent(&view(b"/"));
    assert!(!path_obj_is_present(&p3));
    let p4 = path_parent(&view(b""));
    assert!(!path_obj_is_present(&p4));
}

#[test]
fn absent_differs_from_present_empty() {
    let absent = path_obj_absent();
    let empty = view(b"");
    assert!(!path_obj_is_present(&absent));
    assert!(path_obj_is_present(&empty));
    assert_eq!(path_to_str(&empty).unwrap(), b"".to_vec());
}

#[test]
fn clone_is_independent_of_original() {
    let original = buf(b"a/b");
    let mut copy = path_clone(&original);
    path_push(&mut copy, &view(b"c"));
    assert!(path_pop(&mut copy));
    assert!(path_pop(&mut copy));
    assert_eq!(content(&copy), b"a".to_vec());
    assert_eq!(content(&original), b"a/b".to_vec());
}

#[test]
fn buffer_from_view_and_back() {
    let v = view(b"x/y");
    let b = path_buf_from_obj(&v).expect("present");
    assert_eq!(content(&b), b"x/y".to_vec());
    assert!(path_buf_from_obj(&path_obj_absent()).is_none());
}

#[test]
fn file_name_stem_extension() {
    let p = view(b"a/b.tar.gz");
    assert_eq!(path_file_name(&p).unwrap(), b"b.tar.gz".to_vec());
    assert_eq!(path_file_stem(&p).unwrap(), b"b.tar".to_vec());
    assert_eq!(path_extension(&p).unwrap(), b"gz".to_vec());
}

#[test]
fn hidden_file_is_all_stem() {
    let p = view(b"home/.bashrc");
    assert_eq!(path_file_name(&p).unwrap(), b".bashrc".to_vec());
    assert_eq!(path_file_stem(&p).unwrap(), b".bashrc".to_vec());
    assert!(path_extension(&p).is_none());
}

#[test]
fn file_name_absent_at_root() {
    assert!(path_file_name(&view(b"/")).is_none());
    assert!(path_file_name(&view(b"")).is_none());
    assert_eq!(path_file_name(&view(b"a/b/")).unwrap(), b"b".to_vec());
}

#[test]
fn set_file_name_replaces_final_component() {
    let mut p = buf(b"a/b.txt");
    assert!(path_set_file_name(&mut p, &b"c.md".to_vec()));
    assert_eq!(content(&p), b"a/c.md".to_vec());
}

#[test]
fn set_file_name_rejects_invalid_utf8() {
    let mut p = buf(b"a/b");
    assert!(!path_set_file_name(&mut p, &vec![0xFF]));
    assert_eq!(content(&p), b"a/b".to_vec());
}

#[test]
fn set_file_name_without_one_appends() {
    let mut p = buf(b"/");
    assert!(path_set_file_name(&mut p, &b"x".to_vec()));
    assert_eq!(content(&p), b"/x".to_vec());
}

#[test]
fn set_extension_replaces_adds_and_drops() {
    let mut p = buf(b"a/b.txt");
    assert!(path_set_extension(&mut p, &b"md".to_vec()));
    assert_eq!(content(&p), b"a/b.md".to_vec());
    let mut q = buf(b"a/b");
    assert!(path_set_extension(&mut q, &b"txt".to_vec()));
    assert_eq!(content(&q), b"a/b.txt".to_vec());
    let mut r = buf(b"a/b.txt");
    assert!(path_set_extension(&mut r, &b"".to_vec()));
    assert_eq!(content(&r), b"a/b".to_vec());
}

#[test]
fn set_extension_fails_without_file_name_or_on_bad_bytes() {
    let mut root = buf(b"/");
    assert!(!path_set_extension(&mut root, &b"txt".to_vec()));
    assert_eq!(content(&root), b"/".to_vec());
    let mut p = buf(b"a/b");
    assert!(!path_set_extension(&mut p, &vec![0x80]));
    assert_eq!(content(&p), b"a/b".to_vec());
}

#[test]
fn with_file_name_and_with_extension_leave_input_alone() {
    let p = view(b"a/b.txt");
    let w = path_with_file_name(&p, &b"c".to_vec()).expect("valid");
    assert_eq!(content(&w), b"a/c".to_vec());
    let x = path_with_extension(&p, &b"md".to_vec()).expect("valid");
    assert_eq!(content(&x), b"a/b.md".to_vec());
    assert_eq!(path_to_str(&p).unwrap(), b"a/b.txt".to_vec());
    assert!(path_with_file_name(&p, &vec![0xFE]).is_none());
    assert!(path_with_extension(&p, &vec![0xFE]).is_none());
}

#[test]
fn absolute_relative_and_root() {
    let abs = view(b"/usr");
    let rel = view(b"usr");
    assert!(path_is_absolute(&abs));
    assert!(!path_is_relative(&abs));
    assert!(path_has_root(&abs));
    assert!(!path_is_absolute(&rel));
    assert!(path_is_relative(&rel));
    assert!(!path_has_root(&rel));
}

#[test]
fn starts_with_is_component_wise() {
    let p = view(b"/usr/lib");
    assert!(path_starts_with(&p, &view(b"/usr")));
    assert!(path_starts_with(&p, &view(b"/usr/lib")));
    assert!(path_starts_with(&p, &view(b"/")));
    assert!(!path_starts_with(&p, &view(b"/us")));
    assert!(!path_starts_with(&p, &view(b"usr")));
}

#[test]
fn ends_with_is_component_wise() {
    let p = view(b"/usr/lib");
    assert!(path_ends_with(&p, &view(b"lib")));
    assert!(path_ends_with(&p, &view(b"usr/lib")));
    assert!(path_ends_with(&p, &view(b"/usr/lib")));
    assert!(!path_ends_with(&p, &view(b"ib")));
    assert!(!path_ends_with(&p, &view(b"/lib")));
    assert!(!path_ends_with(&p, &view(b"usr")));
}

#[test]
fn join_with_absolute_tail_replaces() {
    let j = path_join(&view(b"a"), &view(b"/etc"));
    assert_eq!(content(&j), b"/etc".to_vec());
}

#[test]
fn file_name_absent_after_parent_dir() {
    assert!(path_file_name(&view(b"a/..")).is_none());
    assert!(path_file_name(&view(b"..")).is_none());
    assert!(path_file_stem(&view(b"a/..")).is_none());
    assert!(path_extension(&view(b"a/..")).is_none());
}

#[test]
fn file_name_looks_past_current_dir() {
    assert_eq!(path_file_name(&view(b"a/.")).unwrap(), b"a".to_vec());
    assert_eq!(path_file_name(&view(b"../a")).unwrap(), b"a".to_vec());
    assert!(path_file_name(&view(b".")).is_none());
    assert!(path_file_name(&view(b"././")).is_none());
}

#[test]
fn set_file_name_appends_after_parent_dir() {
    let mut p = buf(b"a/..");
    assert!(path_set_file_name(&mut p, &b"c".to_vec()));
    assert_eq!(content(&p), b"a/../c".to_vec());
}

#[test]
fn set_extension_fails_after_parent_dir() {
    let mut p = buf(b"a/..");
    assert!(!path_set_extension(&mut p, &b"md".to_vec()));
    assert_eq!(content(&p), b"a/..".to_vec());
}

#[test]
fn comparisons_skip_current_dir_components() {
    assert!(path_starts_with(&view(b"a/./b"), &view(b"a/b")));
    assert!(path_ends_with(&view(b"x/a/b"), &view(b"a/./b")));
    let stripped = path_strip_prefix(&view(b"a/./b"), &view(b"a"));
    assert_eq!(path_to_str(&stripped).unwrap(), b"b".to_vec());
}

#[test]
fn leading_current_dir_is_kept() {
    assert!(!path_starts_with(&view(b"./a"), &view(b"a")));
    assert!(path_starts_with(&view(b"./a"), &view(b".")));
    assert!(!path_obj_is_present(&path_strip_prefix(&view(b"./a"), &view(b"a"))));
}

#[test]
fn parent_dir_components_count_in_comparisons() {
    assert!(path_starts_with(&view(b"a/../b"), &view(b"a/..")));
    assert!(!path_starts_with(&view(b"a/../b"), &view(b"a/b")));
}

#[test]
fn trailing_dot_gives_empty_extension() {
    let p = view(b"a.");
    assert_eq!(path_file_stem(&p).unwrap(), b"a".to_vec());
    assert_eq!(path_extension(&p).unwrap(), b"".to_vec());
}

#[test]
fn multibyte_text_survives_the_operations() {
    let mut p = buf("caf\u{e9}/men\u{fc}.txt".as_bytes());
    assert_eq!(path_file_name(&path_buf_to_obj(&p)).unwrap(), "men\u{fc}.txt".as_bytes().to_vec());
    assert!(path_pop(&mut p));
    assert_eq!(content(&p), "caf\u{e9}".as_bytes().to_vec());
}
