use std::collections::HashMap;

use torrent_combine::group::{
    decimal_string, group_files, group_name, groups_to_process, key_of, DedupKey, FileEntry,
    FileGroup, GroupKey,
};

fn entry(path: &str, name: &str, size: u64) -> FileEntry {
    FileEntry { path: String::from(path), name: String::from(name), size }
}

#[test]
fn test_dedup_key_enum_variants() {
    assert_eq!(
        format!("{:?}", DedupKey::FilenameAndSize),
        "FilenameAndSize"
    );
    assert_eq!(format!("{:?}", DedupKey::SizeOnly), "SizeOnly");
}

#[test]
fn test_group_key_equality() {
    let key1 = GroupKey::FilenameAndSize("test.mkv".to_string(), 1024);
    let key2 = GroupKey::FilenameAndSize("test.mkv".to_string(), 1024);
    let key3 = GroupKey::FilenameAndSize("other.mkv".to_string(), 1024);
    let key4 = GroupKey::SizeOnly(1024);
    let key5 = GroupKey::SizeOnly(1024);
    let key6 = GroupKey::SizeOnly(2048);

    assert_eq!(key1, key2);
    assert_ne!(key1, key3);
    assert_ne!(key1, key4);
    assert_eq!(key4, key5);
    assert_ne!(key4, key6);
}

#[test]
fn test_group_key_hash() {
    let mut map: HashMap<GroupKey, Vec<String>> = HashMap::new();

    let key1 = GroupKey::FilenameAndSize("test.mkv".to_string(), 1024);
    let key2 = GroupKey::SizeOnly(1024);

    map.insert(key1, vec![String::from("/path1")]);
    map.insert(key2, vec![String::from("/path2")]);

    assert_eq!(map.len(), 2);

    let key1_dup = GroupKey::FilenameAndSize("test.mkv".to_string(), 1024);
    map.entry(key1_dup)
        .or_insert(Vec::new())
        .push(String::from("/path3"));

    assert_eq!(map.len(), 2);
}

#[test]
fn test_group_name_formatting() {
    let key1 = GroupKey::FilenameAndSize("video.mkv".to_string(), 2097152);
    let key2 = GroupKey::SizeOnly(1048576);

    let name1 = group_name(&key1);
    let name2 = group_name(&key2);

    assert_eq!(name1, "video.mkv@2097152");
    assert_eq!(name2, "size-1048576");
}

#[test]
fn test_decimal_string_values() {
    assert_eq!(decimal_string(0), "0");
    assert_eq!(decimal_string(7), "7");
    assert_eq!(decimal_string(10), "10");
    assert_eq!(decimal_string(1048576), "1048576");
    assert_eq!(decimal_string(u64::MAX), "18446744073709551615");
}

#[test]
fn test_key_of_modes() {
    let e = entry("/data/video.mkv", "video.mkv", 2048);
    let k1 = key_of(DedupKey::FilenameAndSize, &e);
    assert_eq!(k1, GroupKey::FilenameAndSize("video.mkv".to_string(), 2048));
    let k2 = key_of(DedupKey::SizeOnly, &e);
    assert_eq!(k2, GroupKey::SizeOnly(2048));
}

#[test]
fn test_group_files_by_name_and_size() {
    let entries = vec![
        entry("/a/video.mkv", "video.mkv", 100),
        entry("/b/video.mkv", "video.mkv", 100),
        entry("/c/other.mkv", "other.mkv", 100),
        entry("/d/video.mkv", "video.mkv", 200),
    ];
    let groups = group_files(&entries, DedupKey::FilenameAndSize);
    assert_eq!(groups.len(), 3);

    let g0 = &groups[0];
    assert_eq!(g0.key, GroupKey::FilenameAndSize("video.mkv".to_string(), 100));
    assert_eq!(g0.paths, vec!["/a/video.mkv".to_string(), "/b/video.mkv".to_string()]);

    let g1 = &groups[1];
    assert_eq!(g1.key, GroupKey::FilenameAndSize("other.mkv".to_string(), 100));
    assert_eq!(g1.paths, vec!["/c/other.mkv".to_string()]);

    let g2 = &groups[2];
    assert_eq!(g2.key, GroupKey::FilenameAndSize("video.mkv".to_string(), 200));
    assert_eq!(g2.paths, vec!["/d/video.mkv".to_string()]);
}

#[test]
fn test_group_files_by_size_only() {
    let entries = vec![
        entry("/a/video.mkv", "video.mkv", 100),
        entry("/c/other.mkv", "other.mkv", 100),
        entry("/d/video.mkv", "video.mkv", 200),
    ];
    let groups = group_files(&entries, DedupKey::SizeOnly);
    assert_eq!(groups.len(), 2);
    assert_eq!(groups[0].key, GroupKey::SizeOnly(100));
    assert_eq!(groups[0].paths, vec!["/a/video.mkv".to_string(), "/c/other.mkv".to_string()]);
    assert_eq!(groups[1].key, GroupKey::SizeOnly(200));
    assert_eq!(groups[1].paths, vec!["/d/video.mkv".to_string()]);
}

#[test]
fn test_groups_to_process_filters_singletons() {
    let groups = vec![
        FileGroup {
            key: GroupKey::SizeOnly(100),
            paths: vec!["/a".to_string(), "/b".to_string()],
        },
        FileGroup { key: GroupKey::SizeOnly(200), paths: vec!["/c".to_string()] },
        FileGroup {
            key: GroupKey::SizeOnly(300),
            paths: vec!["/d".to_string(), "/e".to_string(), "/f".to_string()],
        },
    ];
    let kept = groups_to_process(groups);
    assert_eq!(kept.len(), 2);
    assert_eq!(kept[0].key, GroupKey::SizeOnly(100));
    assert_eq!(kept[1].key, GroupKey::SizeOnly(300));
    assert_eq!(kept[1].paths.len(), 3);
}
