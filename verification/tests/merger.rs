use torrent_combine::apply::{plan_apply, sidecar_path};
use torrent_combine::engine::{check_sanity_and_completes, check_word_sanity, MergeError, MergeScan};
use torrent_combine::merger::{process_group, GroupStatus};

#[test]
fn test_single_file() {
    let data = vec![1u8, 2, 3];
    let members = vec![data.clone()];
    match check_sanity_and_completes(&members) {
        Ok(Some((union, is_complete))) => {
            assert_eq!(is_complete, vec![true]);
            assert_eq!(union, data);
        }
        _ => panic!("Expected Some for single file"),
    }
}

#[test]
fn test_size_mismatch() {
    let members = vec![vec![1u8, 2, 3], vec![4u8, 5]];
    let res = check_sanity_and_completes(&members);
    assert!(res.is_err());
}

#[test]
fn test_sanity_fail() {
    let members = vec![vec![1u8, 0], vec![2u8, 0]];
    let res = check_sanity_and_completes(&members);
    assert!(matches!(res, Ok(None)));
}

#[test]
fn test_compatible_merge_multiple() {
    let data1 = vec![1u8, 0, 0];
    let data2 = vec![0u8, 1, 0];
    let data3 = vec![1u8, 1, 0];
    let members = vec![data1, data2, data3];
    match check_sanity_and_completes(&members) {
        Ok(Some((union, is_complete))) => {
            assert_eq!(is_complete, vec![false, false, true]);
            assert_eq!(union, vec![1u8, 1, 0]);
        }
        _ => panic!("Expected Some for compatible merge"),
    }
}

#[test]
fn test_process_group_creates_merged_for_incomplete() {
    let paths = vec![
        String::from("sub1/video.mkv"),
        String::from("sub2/video.mkv"),
    ];
    let data_incomplete = vec![0u8, 0, 0];
    let data_complete = vec![4u8, 5, 6];
    let members = vec![data_incomplete, data_complete.clone()];

    let out = process_group(&paths, &members, false).unwrap();

    assert!(matches!(out.stats.status, GroupStatus::Merged));
    assert_eq!(out.stats.merged_files.len(), 1);
    assert_eq!(out.stats.merged_files[0], "sub1/video.mkv.merged");
    assert_eq!(out.union, data_complete);

    assert_eq!(out.targets.len(), 1);
    assert_eq!(out.targets[0].index, 0);
    assert_eq!(out.targets[0].dest, "sub1/video.mkv.merged");
    assert!(out.targets[0].sidecar);
    assert!(!out
        .targets
        .iter()
        .any(|t| t.dest == "sub2/video.mkv.merged"));
}

#[test]
fn test_process_group_no_merged_on_conflict() {
    let paths = vec![String::from("a"), String::from("b")];
    let members = vec![vec![1u8, 0], vec![2u8, 0]];

    let out = process_group(&paths, &members, false).unwrap();

    assert!(matches!(out.stats.status, GroupStatus::Failed));
    assert!(out.stats.merged_files.is_empty());
    assert!(!out.targets.iter().any(|t| t.dest == "a.merged"));
    assert!(!out.targets.iter().any(|t| t.dest == "b.merged"));
    assert!(out.targets.is_empty());
}

#[test]
fn test_process_group_no_merged_all_complete() {
    let paths = vec![String::from("a"), String::from("b")];
    let data = vec![4u8, 5, 6];
    let members = vec![data.clone(), data];

    let out = process_group(&paths, &members, false).unwrap();

    assert!(matches!(out.stats.status, GroupStatus::Skipped));
    assert!(out.stats.merged_files.is_empty());
    assert!(!out.targets.iter().any(|t| t.dest == "a.merged"));
    assert!(!out.targets.iter().any(|t| t.dest == "b.merged"));
    assert!(out.targets.is_empty());
}

#[test]
fn test_process_group_replace_for_incomplete() {
    let paths = vec![
        String::from("sub1/video.mkv"),
        String::from("sub2/video.mkv"),
    ];
    let data_incomplete = vec![0u8, 0, 0];
    let data_complete = vec![4u8, 5, 6];
    let members = vec![data_incomplete, data_complete.clone()];

    let out = process_group(&paths, &members, true).unwrap();

    assert!(matches!(out.stats.status, GroupStatus::Merged));
    assert_eq!(out.union, data_complete);

    assert_eq!(out.targets.len(), 1);
    assert_eq!(out.targets[0].index, 0);
    assert_eq!(out.targets[0].dest, "sub1/video.mkv");
    assert!(!out.targets[0].sidecar);

    assert!(out.stats.merged_files.is_empty());
    assert!(!out.targets.iter().any(|t| t.dest == "sub1/video.mkv.merged"));
    assert!(!out.targets.iter().any(|t| t.dest == "sub2/video.mkv.merged"));
}

#[test]
fn test_process_group_empty_group() {
    let out = process_group(&vec![], &vec![], false).unwrap();
    assert!(matches!(out.stats.status, GroupStatus::Skipped));
    assert_eq!(out.stats.bytes_processed, 0);
    assert!(out.targets.is_empty());
}

#[test]
fn test_process_group_zero_length_members() {
    let paths = vec![String::from("a"), String::from("b")];
    let members = vec![vec![], vec![]];
    let out = process_group(&paths, &members, false).unwrap();
    assert!(matches!(out.stats.status, GroupStatus::Skipped));
    assert_eq!(out.stats.bytes_processed, 0);
    assert!(out.targets.is_empty());
}

#[test]
fn test_process_group_single_member_skipped() {
    let paths = vec![String::from("only")];
    let members = vec![vec![9u8, 8, 7]];
    let out = process_group(&paths, &members, false).unwrap();
    assert!(matches!(out.stats.status, GroupStatus::Skipped));
    assert!(out.targets.is_empty());
}

#[test]
fn test_process_group_size_mismatch_error() {
    let paths = vec![String::from("a"), String::from("b")];
    let members = vec![vec![1u8, 2, 3], vec![1u8, 2]];
    let res = process_group(&paths, &members, false);
    assert!(matches!(res, Err(MergeError::SizeMismatch)));
}

#[test]
fn test_process_group_bytes_processed() {
    let paths = vec![String::from("a"), String::from("b")];
    let members = vec![vec![1u8, 0, 0], vec![1u8, 2, 3]];
    let out = process_group(&paths, &members, false).unwrap();
    assert_eq!(out.stats.bytes_processed, 3);
}

#[test]
fn test_process_group_idempotent_rerun() {
    let paths = vec![String::from("a"), String::from("b")];
    let first = process_group(&paths, &vec![vec![1u8, 0, 0], vec![0u8, 1, 0]], false).unwrap();
    assert!(matches!(first.stats.status, GroupStatus::Merged));
    assert_eq!(first.union, vec![1u8, 1, 0]);

    // Every member now holds the union: a second run has nothing to do.
    let members = vec![first.union.clone(), first.union.clone()];
    let second = process_group(&paths, &members, false).unwrap();
    assert!(matches!(second.stats.status, GroupStatus::Skipped));
    assert!(second.targets.is_empty());
}

#[test]
fn test_check_word_sanity_values() {
    assert!(check_word_sanity(0x0102030405060708, 0x0102030405060708));
    // A zero byte against any union byte is acceptable.
    assert!(check_word_sanity(0x0100, 0x0103));
    // A non-zero byte that differs from the union byte is a conflict.
    assert!(!check_word_sanity(0x01, 0x03));
    assert!(!check_word_sanity(0xff00000000000000, 0x0f00000000000000));
    assert!(check_word_sanity(0, u64::MAX));
}

#[test]
fn test_long_members_word_path() {
    // 20 bytes: exercises both the word-sized scan and the unaligned tail.
    let mut a = vec![0u8; 20];
    let mut b = vec![0u8; 20];
    for i in 0..20 {
        if i % 2 == 0 {
            a[i] = (i + 1) as u8;
        } else {
            b[i] = (i + 1) as u8;
        }
    }
    let members = vec![a, b];
    match check_sanity_and_completes(&members) {
        Ok(Some((union, is_complete))) => {
            for i in 0..20 {
                assert_eq!(union[i], (i + 1) as u8);
            }
            assert_eq!(is_complete, vec![false, false]);
        }
        _ => panic!("expected a merged result"),
    }
}

#[test]
fn test_long_members_tail_conflict() {
    let mut a = vec![0u8; 19];
    let mut b = vec![0u8; 19];
    // Conflict in the unaligned tail, past the last full word.
    a[17] = 5;
    b[17] = 6;
    let members = vec![a, b];
    assert!(matches!(check_sanity_and_completes(&members), Ok(None)));
}

#[test]
fn test_merge_scan_chunked_matches_whole() {
    // Stream the members of test_compatible_merge_multiple in two rounds.
    let mut scan = MergeScan::new(3);
    let round1 = vec![vec![1u8, 0], vec![0u8, 1], vec![1u8, 1]];
    let round2 = vec![vec![0u8], vec![0u8], vec![0u8]];

    let u1 = scan.feed(&round1).expect("round one is consistent");
    assert_eq!(u1, vec![1u8, 1]);
    let u2 = scan.feed(&round2).expect("round two is consistent");
    assert_eq!(u2, vec![0u8]);

    assert_eq!(scan.complete, vec![false, false, true]);
}

#[test]
fn test_merge_scan_conflict() {
    let mut scan = MergeScan::new(2);
    let round = vec![vec![1u8, 0], vec![2u8, 0]];
    assert!(scan.feed(&round).is_none());
}

#[test]
fn test_sidecar_path_suffix() {
    assert_eq!(sidecar_path(&String::from("video.mkv")), "video.mkv.merged");
    assert_eq!(sidecar_path(&String::from("dir/f")), "dir/f.merged");
}

#[test]
fn test_plan_apply_sidecar_mode() {
    let paths = vec![String::from("x"), String::from("y"), String::from("z")];
    let complete = vec![false, true, false];
    let plan = plan_apply(&paths, &complete, false);
    assert_eq!(plan.len(), 2);
    assert_eq!(plan[0].index, 0);
    assert_eq!(plan[0].dest, "x.merged");
    assert!(plan[0].sidecar);
    assert_eq!(plan[1].index, 2);
    assert_eq!(plan[1].dest, "z.merged");
    assert!(plan[1].sidecar);
}

#[test]
fn test_plan_apply_replace_mode() {
    let paths = vec![String::from("x"), String::from("y"), String::from("z")];
    let complete = vec![false, true, false];
    let plan = plan_apply(&paths, &complete, true);
    assert_eq!(plan.len(), 2);
    assert_eq!(plan[0].index, 0);
    assert_eq!(plan[0].dest, "x");
    assert!(!plan[0].sidecar);
    assert_eq!(plan[1].index, 2);
    assert_eq!(plan[1].dest, "z");
    assert!(!plan[1].sidecar);
}

#[test]
fn test_plan_apply_all_complete() {
    let paths = vec![String::from("x"), String::from("y")];
    let complete = vec![true, true];
    assert!(plan_apply(&paths, &complete, false).is_empty());
    assert!(plan_apply(&paths, &complete, true).is_empty());
}
