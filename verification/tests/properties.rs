use mccabre::cyclomatic::CyclomaticMetrics;
use mccabre::detector::CloneDetector;
use mccabre::error::MccabreError;
use mccabre::loc::LocMetrics;
use mccabre::tokenizer::{Language, TokenType, Tokenizer};

#[test]
fn line_counts_partition_the_file() {
    let sources = [
        "",
        "one line",
        "\nfn main() {\n    // comment\n\n    let x = 1;\n}\n",
        "// only\n/* comments\n   here */\n",
        "   \n\t\n",
    ];
    for source in sources {
        let m = LocMetrics::calculate(source, Language::Rust).unwrap();
        if m.physical > 0 {
            assert_eq!(m.physical, m.logical + m.comments + m.blank);
        } else {
            assert_eq!(m.logical, 0);
            assert_eq!(m.comments, 0);
            assert_eq!(m.blank, 0);
        }
    }
}

#[test]
fn file_complexity_is_at_least_one() {
    let sources = ["", "x", "if a { } else { }", "a && b || c ? d : e"];
    for source in sources {
        let m = CyclomaticMetrics::calculate(source, Language::Rust).unwrap();
        assert!(m.file_complexity >= 1);
    }
}

#[test]
fn nested_branching_counts_each_decision_point() {
    let source = "if (a && b) { while(c) {} }";
    let tokens = Tokenizer::new(source, Language::Rust).tokenize().unwrap();
    let decision_points = tokens.iter().filter(|t| t.token_type.is_decision_point()).count();
    assert_eq!(decision_points, 3);

    let m = CyclomaticMetrics::calculate(source, Language::Rust).unwrap();
    assert_eq!(m.file_complexity, 4);
}

#[test]
fn straight_line_code_has_complexity_one() {
    let source = "let x = compute(a, b);\nlet y = x + 1;\nprint(y);\n";
    let m = CyclomaticMetrics::calculate(source, Language::Rust).unwrap();
    assert_eq!(m.file_complexity, 1);
}

#[test]
fn identical_bodies_in_one_file_form_a_group() {
    let source = "\nfn first() {\n    let total = base + rate * years;\n    let adjusted = total - fees;\n    return adjusted;\n}\n\nfn second() {\n    let total = base + rate * years;\n    let adjusted = total - fees;\n    return adjusted;\n}\n";
    let detector = CloneDetector::new(8);
    let clones = detector
        .detect_in_file(source, Language::Rust, String::from("sample.rs"))
        .unwrap();
    assert!(!clones.is_empty());
    assert!(clones.iter().all(|c| c.locations.len() >= 2));
}

#[test]
fn identical_blocks_are_reported_across_files() {
    let block = "\nfn shared() {\n    let total = base + rate * years;\n    let adjusted = total - fees;\n    return adjusted;\n}\n";
    let files = vec![
        (String::from("alpha.rs"), block.to_string(), Language::Rust),
        (String::from("beta.rs"), block.to_string(), Language::Rust),
    ];
    let detector = CloneDetector::new(8);
    let clones = detector.detect_across_files(&files).unwrap();
    let cross = clones.iter().any(|c| {
        c.locations.iter().any(|l| l.file == "alpha.rs")
            && c.locations.iter().any(|l| l.file == "beta.rs")
    });
    assert!(cross);
}

#[test]
fn oversized_window_reports_no_clones() {
    let source = "let x = 5; let y = 10; let x = 5; let y = 10;";
    let tokens = Tokenizer::new(source, Language::Rust).tokenize().unwrap();
    let significant = tokens.iter().filter(|t| t.token_type.is_significant()).count();

    let detector = CloneDetector::new(significant + 1);
    let clones = detector
        .detect_in_file(source, Language::Rust, String::from("test.rs"))
        .unwrap();
    assert_eq!(clones.len(), 0);
}

#[test]
fn filtered_decision_count_matches_single_pass() {
    let source = "\nfn mixed() { // if while inside a comment\n    if a && b { /* case */ }\n    \"case in a string?\";\n    match x { }\n}\n";
    let tokens = Tokenizer::new(source, Language::Rust).tokenize().unwrap();

    let filtered_count = tokens
        .iter()
        .filter(|t| t.token_type.is_significant())
        .filter(|t| t.token_type.is_decision_point())
        .count();

    let single_pass = tokens.iter().filter(|t| t.token_type.is_decision_point()).count();
    assert_eq!(filtered_count, single_pass);

    let m = CyclomaticMetrics::calculate(source, Language::Rust).unwrap();
    assert_eq!(m.file_complexity, single_pass + 1);
}

#[test]
fn empty_input_yields_empty_tokens_and_zeroed_metrics() {
    let tokens = Tokenizer::new("", Language::Rust).tokenize().unwrap();
    assert!(tokens.is_empty());

    let loc = LocMetrics::calculate("", Language::Rust).unwrap();
    assert_eq!(loc.physical, 0);
    assert_eq!(loc.logical, 0);
    assert_eq!(loc.comments, 0);
    assert_eq!(loc.blank, 0);

    let cyclo = CyclomaticMetrics::calculate("", Language::Rust).unwrap();
    assert_eq!(cyclo.file_complexity, 1);
    assert!(cyclo.functions.is_empty());

    let clones = CloneDetector::new(5)
        .detect_in_file("", Language::Rust, String::from("empty.rs"))
        .unwrap();
    assert!(clones.is_empty());
}

#[test]
fn unknown_extension_is_rejected() {
    let result = Language::from_path("notes.xyz");
    assert!(matches!(result, Err(MccabreError::UnsupportedFileType(_))));

    let no_extension = Language::from_path("Makefile");
    assert!(matches!(no_extension, Err(MccabreError::UnsupportedFileType(_))));

    let hidden = Language::from_path(".gitignore");
    assert!(matches!(hidden, Err(MccabreError::UnsupportedFileType(_))));
}

#[test]
fn identifier_scanning_follows_character_classes() {
    let tokens = Tokenizer::new("alpha beta9 _under", Language::Rust).tokenize().unwrap();
    let words: Vec<String> = tokens
        .iter()
        .filter_map(|t| match &t.token_type {
            TokenType::Identifier(w) => Some(w.clone()),
            _ => None,
        })
        .collect();
    assert_eq!(words, vec!["alpha".to_string(), "beta9".to_string(), "_under".to_string()]);
}

#[test]
fn keywords_are_classified_and_positions_tracked() {
    let tokens = Tokenizer::new("if\nwhile x", Language::Rust).tokenize().unwrap();
    assert!(matches!(tokens[0].token_type, TokenType::If));
    assert_eq!(tokens[0].line, 1);
    assert_eq!(tokens[0].column, 1);
    let w = tokens
        .iter()
        .find(|t| matches!(t.token_type, TokenType::While))
        .unwrap();
    assert_eq!(w.line, 2);
    assert_eq!(w.column, 1);
    assert_eq!(w.text, "while");
}

#[test]
fn token_hash_depends_on_the_text() {
    assert_eq!(mccabre::rolling_hash::token_hash(""), 5381);
    assert_ne!(
        mccabre::rolling_hash::token_hash("ab"),
        mccabre::rolling_hash::token_hash("ba")
    );
}

#[test]
fn block_comment_interior_lines_count_as_comment() {
    let m = LocMetrics::calculate("/*\nxx\n*/", Language::Rust).unwrap();
    assert_eq!(m.physical, 3);
    assert_eq!(m.comments, 3);
    assert_eq!(m.blank, 0);
    assert_eq!(m.logical, 0);
}

#[test]
fn multi_line_literal_lines_count_as_code() {
    let m = LocMetrics::calculate("let s = \"a\nb\nc\";", Language::Rust).unwrap();
    assert_eq!(m.physical, 3);
    assert_eq!(m.logical, 3);
    assert_eq!(m.comments, 0);
    assert_eq!(m.blank, 0);
}

#[test]
fn tokens_carry_their_exact_text() {
    let source = "  /* two\nlines */ x\t// tail";
    let tokens = Tokenizer::new(source, Language::Rust).tokenize().unwrap();
    let texts: Vec<&str> = tokens.iter().map(|t| t.text.as_str()).collect();
    assert_eq!(
        texts,
        vec!["  ", "/* two\nlines */", " ", "x", "\t", "// tail"]
    );
    assert_eq!(texts.concat(), source);
}

#[test]
fn token_hash_folds_utf8_bytes() {
    assert_eq!(mccabre::rolling_hash::token_hash("\u{e9}"), 5866513);
    assert_eq!(mccabre::rolling_hash::token_hash("if"), 5863476);
}

#[test]
fn ansi_escapes_are_stripped() {
    let styled = "\x1b[31mred\x1b[0m plain \x1b@tail";
    assert_eq!(mccabre::text::strip_ansi_codes(styled), "red plain @tail");
    assert_eq!(mccabre::text::strip_ansi_codes("no escapes"), "no escapes");
    assert_eq!(mccabre::text::strip_ansi_codes("\x1b[31;4"), "");
}
