use dirsize::entity::FSEntity;
use dirsize::entity::FSType;
use dirsize::report::pct_hundredths;
use dirsize::report::report;

fn children(e: &FSEntity) -> &Vec<FSEntity> {
    assert!(matches!(e.kind, FSType::Folder(_)));
    e.kind.list()
}

fn scenario_a() -> FSEntity {
    let f3 = FSEntity::file(String::from("f3"), Some(10));
    let b = FSEntity::folder(String::from("B"), vec![f3]);
    let f1 = FSEntity::file(String::from("f1"), Some(100));
    let f2 = FSEntity::file(String::from("f2"), Some(50));
    FSEntity::folder(String::from("A"), vec![f1, f2, b])
}

#[test]
fn scenario_a_sizes() {
    let a = scenario_a();
    assert_eq!(a.size, 160);
    let cs = children(&a);
    assert_eq!(cs.len(), 3);
    assert_eq!(cs[0].path, "B");
    assert_eq!(cs[0].size, 10);
    assert_eq!(cs[1].path, "f1");
    assert_eq!(cs[1].size, 100);
    assert_eq!(cs[2].path, "f2");
    assert_eq!(cs[2].size, 50);
}

#[test]
fn scenario_a_directory_size_is_sum_of_children() {
    let a = scenario_a();
    let cs = children(&a);
    let total: u64 = cs.iter().map(|c| c.size).sum();
    assert_eq!(a.size, total);
    let b = &cs[0];
    let bs = children(b);
    let b_total: u64 = bs.iter().map(|c| c.size).sum();
    assert_eq!(b.size, b_total);
}

#[test]
fn scenario_a_report_lines() {
    let a = scenario_a();
    let lines = report(&a, "");
    let expected = vec![
        "FOLDER\t[10 Bytes = 6.25%]\t|_ B",
        "FILE\t[10 Bytes = 100.00%]\t||_ f3",
        "FILE\t[100 Bytes = 62.50%]\t|_ f1",
        "FILE\t[50 Bytes = 31.25%]\t|_ f2",
    ];
    assert_eq!(lines, expected);
}

#[test]
fn scenario_b_empty_directory() {
    let e = FSEntity::folder(String::from("E"), vec![]);
    assert_eq!(e.size, 0);
    assert_eq!(children(&e).len(), 0);
    let lines = report(&e, "");
    assert!(lines.is_empty());
}

#[test]
fn scenario_b_empty_directory_line_under_parent() {
    let e = FSEntity::folder(String::from("E"), vec![]);
    let p = FSEntity::folder(String::from("P"), vec![e]);
    assert_eq!(p.size, 0);
    let lines = report(&p, "");
    assert_eq!(lines, vec!["FOLDER\t[0 Bytes = 0.00%]\t|_ E"]);
}

#[test]
fn report_is_idempotent() {
    let first = report(&scenario_a(), "");
    let second = report(&scenario_a(), "");
    assert_eq!(first, second);
    for (a, b) in first.iter().zip(second.iter()) {
        assert_eq!(a.as_bytes(), b.as_bytes());
    }
}

#[test]
fn fault_isolation_failed_subdirectory() {
    // A directory that could not be listed degrades to zero children and
    // size 0; its siblings and ancestors are computed as if it were empty.
    let good = FSEntity::folder(String::from("good"), vec![FSEntity::file(String::from("good/a"), Some(70))]);
    let bad = FSEntity::folder(String::from("bad"), vec![]);
    let root = FSEntity::folder(String::from("root"), vec![good, bad]);
    assert_eq!(root.size, 70);
    let cs = children(&root);
    assert_eq!(cs[0].path, "good");
    assert_eq!(cs[0].size, 70);
    assert_eq!(cs[1].path, "bad");
    assert_eq!(cs[1].size, 0);
    let lines = report(&root, "");
    assert_eq!(lines.len(), 3);
}

#[test]
fn unreadable_file_counts_as_zero() {
    let f = FSEntity::file(String::from("locked"), None);
    assert_eq!(f.size, 0);
    let f2 = FSEntity::file(String::from("plain"), Some(42));
    assert_eq!(f2.size, 42);
}

#[test]
fn sibling_order_kind_then_size_then_path() {
    let cs = vec![
        FSEntity::file(String::from("z"), Some(5)),
        FSEntity::file(String::from("a"), Some(5)),
        FSEntity::folder(String::from("m"), vec![]),
        FSEntity::file(String::from("big"), Some(99)),
    ];
    let root = FSEntity::folder(String::from("root"), cs);
    let got: Vec<&str> = children(&root).iter().map(|c| c.path.as_str()).collect();
    assert_eq!(got, vec!["m", "big", "a", "z"]);
}

#[test]
fn percentages_stay_within_bounds() {
    assert_eq!(pct_hundredths(0, 0), 0);
    assert_eq!(pct_hundredths(10, 160), 625);
    assert_eq!(pct_hundredths(7, 7), 10000);
    assert_eq!(pct_hundredths(1, 3), 3333);
    assert_eq!(pct_hundredths(0, 5), 0);
}

#[test]
fn constructed_trees_are_resolved() {
    assert!(scenario_a().is_resolved());
    assert!(FSEntity::folder(String::from("E"), vec![]).is_resolved());
    assert!(FSEntity::file(String::from("f"), None).is_resolved());
}

#[test]
fn hand_built_broken_trees_are_not_resolved() {
    let wrong_sum = FSEntity {
        path: String::from("d"),
        size: 5,
        kind: FSType::Folder(vec![]),
    };
    assert!(!wrong_sum.is_resolved());

    let unsorted = FSEntity {
        path: String::from("d"),
        size: 3,
        kind: FSType::Folder(vec![
            FSEntity::file(String::from("small"), Some(1)),
            FSEntity::file(String::from("large"), Some(2)),
        ]),
    };
    assert!(!unsorted.is_resolved());
}

#[test]
fn kind_labels() {
    let d = FSEntity::folder(String::from("d"), vec![]);
    let f = FSEntity::file(String::from("f"), Some(1));
    assert_eq!(d.kind.printable_description(), "FOLDER");
    assert_eq!(f.kind.printable_description(), "FILE");
}

#[test]
fn deep_tree_report_order_is_depth_first() {
    let inner = FSEntity::folder(String::from("inner"), vec![FSEntity::file(String::from("deep"), Some(4))]);
    let mid = FSEntity::folder(String::from("mid"), vec![inner, FSEntity::file(String::from("side"), Some(4))]);
    let root = FSEntity::folder(String::from("root"), vec![mid, FSEntity::file(String::from("top"), Some(8))]);
    let lines = report(&root, "");
    assert_eq!(lines.len(), 5);
    assert!(lines[0].ends_with("|_ mid"));
    assert!(lines[1].ends_with("||_ inner"));
    assert!(lines[2].ends_with("|||_ deep"));
    assert!(lines[3].ends_with("||_ side"));
    assert!(lines[4].ends_with("|_ top"));
}
