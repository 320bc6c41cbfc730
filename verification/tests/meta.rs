use path_helper::meta::map_time;
use path_helper::meta::meta_snapshot_new;
use path_helper::meta::path_meta_classify;
use path_helper::meta::path_meta_accessed;
use path_helper::meta::path_meta_created;
use path_helper::meta::path_meta_file_size;
use path_helper::meta::path_meta_file_type;
use path_helper::meta::path_meta_is_dir;
use path_helper::meta::path_meta_is_file;
use path_helper::meta::path_meta_modified;
use path_helper::meta::MetaFileType;

#[test]
fn classify_prefers_symlink_then_file_then_dir() {
    assert_eq!(path_meta_classify(true, true, true), MetaFileType::FT_SymLink);
    assert_eq!(path_meta_classify(false, true, false), MetaFileType::FT_File);
    assert_eq!(path_meta_classify(false, true, true), MetaFileType::FT_File);
    assert_eq!(path_meta_classify(false, false, true), MetaFileType::FT_Dir);
    assert_eq!(path_meta_classify(false, false, false), MetaFileType::FT_Other);
}

#[test]
fn map_time_encodes_both_sides_of_the_epoch() {
    assert_eq!(map_time(true, false, 10), 10);
    assert_eq!(map_time(true, true, 5), -5);
    assert_eq!(map_time(true, false, 0), 0);
    assert_eq!(map_time(true, true, 0), 0);
}

#[test]
fn map_time_sentinel_on_unavailable_or_unrepresentable() {
    assert_eq!(map_time(false, false, 7), i64::MIN);
    assert_eq!(map_time(true, false, u64::MAX), i64::MIN);
    assert_eq!(map_time(true, true, (i64::MAX as u64) + 1), i64::MIN);
}

#[test]
fn map_time_extremes_stay_clear_of_the_sentinel() {
    assert_eq!(map_time(true, false, i64::MAX as u64), i64::MAX);
    assert_eq!(map_time(true, true, i64::MAX as u64), -i64::MAX);
    assert!(map_time(true, true, i64::MAX as u64) != i64::MIN);
}

#[test]
fn snapshot_reports_what_was_captured() {
    let m = meta_snapshot_new(false, true, false, 10, 111, 222, 333);
    assert_eq!(path_meta_file_type(&m), MetaFileType::FT_File);
    assert!(path_meta_is_file(&m));
    assert!(!path_meta_is_dir(&m));
    assert_eq!(path_meta_file_size(&m), 10);
    assert_eq!(path_meta_modified(&m), 111);
    assert_eq!(path_meta_accessed(&m), 222);
    assert_eq!(path_meta_created(&m), 333);
}

#[test]
fn snapshot_of_a_directory() {
    let m = meta_snapshot_new(false, false, true, 4096, 0, 0, 0);
    assert_eq!(path_meta_file_type(&m), MetaFileType::FT_Dir);
    assert!(path_meta_is_dir(&m));
    assert!(!path_meta_is_file(&m));
}
