use dirsize::entity::entity_precedes;
use dirsize::entity::insert_child;
use dirsize::entity::FSEntity;
use dirsize::order::str_le;
use dirsize::render::format_hundredths;
use dirsize::render::format_path;
use dirsize::render::format_size;
use dirsize::render::format_u64;

#[test]
fn format_size_bytes() {
    assert_eq!(format_size(0), "0 Bytes");
    assert_eq!(format_size(1), "1 Bytes");
    assert_eq!(format_size(1023), "1023 Bytes");
}

#[test]
fn format_size_kilobytes() {
    assert_eq!(format_size(1024), "1.00 KB");
    assert_eq!(format_size(1536), "1.50 KB");
    assert_eq!(format_size(1075), "1.05 KB");
    assert_eq!(format_size(1048575), "1024.00 KB");
}

#[test]
fn format_size_rounds_ties_to_even() {
    // 1152 / 1024 = 1.125 exactly; 1408 / 1024 = 1.375 exactly.
    assert_eq!(format_size(1152), "1.12 KB");
    assert_eq!(format_size(1408), "1.38 KB");
}

#[test]
fn format_size_larger_units() {
    assert_eq!(format_size(1048576), "1.00 MB");
    assert_eq!(format_size(1572864), "1.50 MB");
    assert_eq!(format_size(1073741824), "1.00 GB");
    assert_eq!(format_size(1610612736), "1.50 GB");
}

#[test]
fn format_u64_decimal() {
    assert_eq!(format_u64(0), "0");
    assert_eq!(format_u64(7), "7");
    assert_eq!(format_u64(10), "10");
    assert_eq!(format_u64(9081726354), "9081726354");
}

#[test]
fn format_hundredths_two_decimals() {
    assert_eq!(format_hundredths(0), "0.00");
    assert_eq!(format_hundredths(5), "0.05");
    assert_eq!(format_hundredths(50), "0.50");
    assert_eq!(format_hundredths(625), "6.25");
    assert_eq!(format_hundredths(12345), "123.45");
}

#[test]
fn format_path_short_is_unchanged() {
    assert_eq!(format_path("src/main.rs"), "src/main.rs");
    let exactly_fifty = "x".repeat(50);
    assert_eq!(format_path(&exactly_fifty), exactly_fifty);
}

#[test]
fn format_path_long_keeps_both_ends() {
    let long = format!("{}{}", "a".repeat(30), "b".repeat(30));
    let expected = format!("{}...{}", "a".repeat(20), "b".repeat(20));
    assert_eq!(format_path(&long), expected);
}

#[test]
fn format_path_counts_characters_not_bytes() {
    let long = "\u{e9}".repeat(60);
    let expected = format!("{}...{}", "\u{e9}".repeat(20), "\u{e9}".repeat(20));
    assert_eq!(format_path(&long), expected);
}

#[test]
fn format_size_boundary_below_next_unit() {
    assert_eq!(format_size(1073741823), "1024.00 MB");
}

#[test]
fn str_le_orders_by_code_point() {
    assert!(str_le("z", "\u{e9}"));
    assert!(!str_le("\u{e9}", "z"));
}

#[test]
fn str_le_is_lexicographic() {
    assert!(str_le("", ""));
    assert!(str_le("", "a"));
    assert!(!str_le("a", ""));
    assert!(str_le("abc", "abd"));
    assert!(!str_le("abd", "abc"));
    assert!(str_le("abc", "abc"));
    assert!(str_le("ab", "abc"));
    assert!(!str_le("abc", "ab"));
}

#[test]
fn precedes_ranks_folders_first() {
    let d = FSEntity::folder(String::from("dir"), vec![]);
    let f = FSEntity::file(String::from("aaa"), Some(1000));
    assert!(entity_precedes(&d, &f));
    assert!(!entity_precedes(&f, &d));
}

#[test]
fn precedes_orders_by_size_then_path() {
    let small = FSEntity::file(String::from("a"), Some(1));
    let large = FSEntity::file(String::from("z"), Some(2));
    assert!(entity_precedes(&large, &small));
    assert!(!entity_precedes(&small, &large));
    let tie_a = FSEntity::file(String::from("a"), Some(3));
    let tie_b = FSEntity::file(String::from("b"), Some(3));
    assert!(entity_precedes(&tie_a, &tie_b));
    assert!(!entity_precedes(&tie_b, &tie_a));
}

#[test]
fn insert_child_keeps_order() {
    let mut list = Vec::new();
    insert_child(&mut list, FSEntity::file(String::from("mid"), Some(50)));
    insert_child(&mut list, FSEntity::file(String::from("small"), Some(1)));
    insert_child(&mut list, FSEntity::file(String::from("large"), Some(900)));
    insert_child(&mut list, FSEntity::folder(String::from("dir"), vec![]));
    let got: Vec<&str> = list.iter().map(|c| c.path.as_str()).collect();
    assert_eq!(got, vec!["dir", "large", "mid", "small"]);
}
