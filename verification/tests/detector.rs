use mccabre::detector::CloneDetector;
use mccabre::tokenizer::Language;

#[test]
fn test_no_clones_in_simple_file() {
    let source = "\nfn simple() {\n    let x = 5;\n    let y = 10;\n    return x + y;\n}\n";
    let detector = CloneDetector::new(10);
    let clones = detector
        .detect_in_file(source, Language::Rust, String::from("test.rs"))
        .unwrap();

    assert_eq!(clones.len(), 0);
}

#[test]
fn test_detect_simple_clone() {
    let source = "\nfn process_a() {\n    let x = input.get();\n    let y = x * 2;\n    let z = y + 5;\n    return z;\n}\n\nfn process_b() {\n    let x = input.get();\n    let y = x * 2;\n    let z = y + 5;\n    return z;\n}\n";
    let detector = CloneDetector::new(5);
    let clones = detector
        .detect_in_file(source, Language::Rust, String::from("test.rs"))
        .unwrap();

    assert!(!clones.is_empty());

    for clone in &clones {
        assert!(clone.locations.len() >= 2);
    }
}

#[test]
fn test_across_files() {
    let file1 = "\nfn helper() {\n    for i in 0..10 {\n        println!(\"{}\", i);\n    }\n}\n";
    let file2 = "\nfn another() {\n    for i in 0..10 {\n        println!(\"{}\", i);\n    }\n}\n";

    let files = vec![
        (String::from("file1.rs"), file1.to_string(), Language::Rust),
        (String::from("file2.rs"), file2.to_string(), Language::Rust),
    ];

    let detector = CloneDetector::new(5);
    let clones = detector.detect_across_files(&files).unwrap();

    if !clones.is_empty() {
        let has_cross_file = clones.iter().any(|clone| {
            let files: std::collections::HashSet<_> = clone.locations.iter().map(|l| &l.file).collect();
            files.len() > 1
        });
        assert!(has_cross_file, "Should detect clones across different files");
    }
}

#[test]
fn test_min_tokens_threshold() {
    let source = "let x = 5; let y = 10; let x = 5; let y = 10;";

    let detector1 = CloneDetector::new(3);
    let clones1 = detector1
        .detect_in_file(source, Language::Rust, String::from("test.rs"))
        .unwrap();

    let detector2 = CloneDetector::new(100);
    let clones2 = detector2
        .detect_in_file(source, Language::Rust, String::from("test.rs"))
        .unwrap();

    assert!(clones2.len() <= clones1.len());
}
