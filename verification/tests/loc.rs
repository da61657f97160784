use mccabre::loc::{FileLocReport, LocMetrics, LocReport, RankBy};
use mccabre::tokenizer::Language;

#[test]
fn test_empty_file() {
    let source = "";
    let metrics = LocMetrics::calculate(source, Language::Rust).unwrap();
    assert_eq!(metrics.physical, 0);
    assert_eq!(metrics.logical, 0);
}

#[test]
fn test_simple_code() {
    let source = "\nfn main() {\n    println!(\"Hello\");\n}\n";
    let metrics = LocMetrics::calculate(source, Language::Rust).unwrap();
    assert_eq!(metrics.physical, 5);
    assert!(metrics.logical >= 2);
    assert!(metrics.blank >= 1);
}

#[test]
fn loc_test_comments() {
    let source = "\n// This is a comment\n/* Multi-line\n   comment */\nlet x = 5; // inline comment\n";
    let metrics = LocMetrics::calculate(source, Language::Rust).unwrap();
    assert!(metrics.comments >= 2);
    assert!(metrics.logical >= 1);
}

#[test]
fn test_blank_lines() {
    let source = "\n\n\nfn test() {}\n\n\n";
    let metrics = LocMetrics::calculate(source, Language::Rust).unwrap();
    assert!(metrics.blank >= 4);
    assert!(metrics.logical >= 1);
}

#[test]
fn test_javascript() {
    let source = "\nfunction hello() {\n    console.log(\"Hello\");\n}\n";
    let metrics = LocMetrics::calculate(source, Language::JavaScript).unwrap();
    assert_eq!(metrics.physical, 5);
    assert!(metrics.logical >= 2);
}

#[test]
fn test_all_comments() {
    let source = "\n// Comment 1\n// Comment 2\n/* Comment 3 */\n";
    let metrics = LocMetrics::calculate(source, Language::Rust).unwrap();
    assert!(metrics.comments >= 3);
    assert_eq!(metrics.logical, 0);
}

#[test]
fn test_loc_metrics_add() {
    let m1 = LocMetrics { physical: 10, logical: 8, comments: 1, blank: 1 };
    let m2 = LocMetrics { physical: 20, logical: 15, comments: 3, blank: 2 };
    let result = m1.add(&m2);

    assert_eq!(result.physical, 30);
    assert_eq!(result.logical, 23);
    assert_eq!(result.comments, 4);
    assert_eq!(result.blank, 3);
}

#[test]
fn test_rank_by_value_from() {
    let metrics = LocMetrics { physical: 100, logical: 80, comments: 10, blank: 10 };

    assert_eq!(RankBy::Physical.value_from(&metrics), 100);
    assert_eq!(RankBy::Logical.value_from(&metrics), 80);
    assert_eq!(RankBy::Comments.value_from(&metrics), 10);
    assert_eq!(RankBy::Blank.value_from(&metrics), 10);
}

#[test]
fn test_loc_report_new() {
    let files = vec![
        FileLocReport {
            path: String::from("test1.rs"),
            metrics: LocMetrics { physical: 100, logical: 80, comments: 10, blank: 10 },
        },
        FileLocReport {
            path: String::from("test2.rs"),
            metrics: LocMetrics { physical: 50, logical: 40, comments: 5, blank: 5 },
        },
    ];

    let report = LocReport::new(files, RankBy::Logical, false);

    assert_eq!(report.summary.total_files, 2);
    assert_eq!(report.summary.total_physical, 150);
    assert_eq!(report.summary.total_logical, 120);
    assert_eq!(report.summary.total_comments, 15);
    assert_eq!(report.summary.total_blank, 15);

    assert_eq!(report.files[0].metrics.logical, 80);
    assert_eq!(report.files[1].metrics.logical, 40);
}

#[test]
fn test_loc_report_with_directories() {
    let files = vec![
        FileLocReport {
            path: String::from("src/main.rs"),
            metrics: LocMetrics { physical: 100, logical: 80, comments: 10, blank: 10 },
        },
        FileLocReport {
            path: String::from("src/lib.rs"),
            metrics: LocMetrics { physical: 50, logical: 40, comments: 5, blank: 5 },
        },
        FileLocReport {
            path: String::from("tests/test.rs"),
            metrics: LocMetrics { physical: 30, logical: 25, comments: 3, blank: 2 },
        },
    ];

    let report = LocReport::new(files, RankBy::Logical, true);

    assert!(report.directories.is_some());
    let dirs = report.directories.unwrap();
    assert_eq!(dirs.len(), 2);

    assert_eq!(dirs[0].path, String::from("src"));
    assert_eq!(dirs[0].total.logical, 120);
    assert_eq!(dirs[0].files.len(), 2);

    assert_eq!(dirs[1].path, String::from("tests"));
    assert_eq!(dirs[1].total.logical, 25);
    assert_eq!(dirs[1].files.len(), 1);
}
