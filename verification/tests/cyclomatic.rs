use mccabre::cyclomatic::{CyclomaticMetrics, Severity};
use mccabre::tokenizer::Language;

#[test]
fn test_simple_function() {
    let source = "\nfn simple() {\n    let x = 5;\n    return x;\n}\n";
    let metrics = CyclomaticMetrics::calculate(source, Language::Rust).unwrap();
    assert_eq!(metrics.file_complexity, 1);
    assert_eq!(metrics.severity(), Severity::Low);
}

#[test]
fn test_single_if() {
    let source = "\nfn check(x: i32) {\n    if x > 5 {\n        println!(\"big\");\n    }\n}\n";
    let metrics = CyclomaticMetrics::calculate(source, Language::Rust).unwrap();
    assert_eq!(metrics.file_complexity, 2);
}

#[test]
fn test_multiple_decision_points() {
    let source = "\nfn complex(x: i32, y: i32) {\n    if x > 0 && y > 0 {\n        while x < 10 {\n            x += 1;\n        }\n    } else if x < 0 {\n        for i in 0..5 {\n            println!(\"{}\", i);\n        }\n    }\n}\n";
    let metrics = CyclomaticMetrics::calculate(source, Language::Rust).unwrap();
    assert_eq!(metrics.file_complexity, 6);
}

#[test]
fn test_ternary_operator() {
    let source = "\nlet x = condition ? true_value : false_value;\nlet y = a && b ? c : d;\n";
    let metrics = CyclomaticMetrics::calculate(source, Language::JavaScript).unwrap();
    assert_eq!(metrics.file_complexity, 4);
}

#[test]
fn test_switch_case() {
    let source = "\nswitch (x) {\n    case 1:\n        break;\n    case 2:\n        break;\n    default:\n        break;\n}\n";
    let metrics = CyclomaticMetrics::calculate(source, Language::JavaScript).unwrap();
    assert!(metrics.file_complexity >= 4);
}

#[test]
fn test_function_detection_rust() {
    let source = "\nfn simple() {\n    let x = 5;\n}\n\nfn complex() {\n    if true {\n        while false {\n            loop { break; }\n        }\n    }\n}\n";
    let metrics = CyclomaticMetrics::calculate(source, Language::Rust).unwrap();

    if !metrics.functions.is_empty() {
        for func in &metrics.functions {
            assert!(func.complexity >= 1);
            assert!(!func.name.is_empty());
        }
    }
}

#[test]
fn test_javascript_function() {
    let source = "\nfunction hello() {\n    if (x > 0) {\n        return true;\n    }\n    return false;\n}\n";
    let metrics = CyclomaticMetrics::calculate(source, Language::JavaScript).unwrap();
    assert!(!metrics.functions.is_empty());
    assert_eq!(metrics.file_complexity, 2);
}

#[test]
fn test_severity_levels() {
    assert_eq!(
        CyclomaticMetrics { file_complexity: 5, functions: vec![] }.severity(),
        Severity::Low
    );
    assert_eq!(
        CyclomaticMetrics { file_complexity: 15, functions: vec![] }.severity(),
        Severity::Moderate
    );
    assert_eq!(
        CyclomaticMetrics { file_complexity: 25, functions: vec![] }.severity(),
        Severity::High
    );
    assert_eq!(
        CyclomaticMetrics { file_complexity: 100, functions: vec![] }.severity(),
        Severity::VeryHigh
    );
}

#[test]
fn test_logical_operators() {
    let source = "\nif (a && b && c) { }\nif (x || y || z) { }\n";
    let metrics = CyclomaticMetrics::calculate(source, Language::JavaScript).unwrap();
    assert_eq!(metrics.file_complexity, 7);
}
