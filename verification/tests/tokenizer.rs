use mccabre::tokenizer::{Language, TokenType, Tokenizer};

#[test]
fn test_language_detection() {
    assert_eq!(Language::from_path("test.rs").unwrap(), Language::Rust);
    assert_eq!(Language::from_path("test.js").unwrap(), Language::JavaScript);
    assert_eq!(Language::from_path("test.ts").unwrap(), Language::TypeScript);
    assert_eq!(Language::from_path("test.go").unwrap(), Language::Go);
    assert_eq!(Language::from_path("test.java").unwrap(), Language::Java);
    assert_eq!(Language::from_path("test.cpp").unwrap(), Language::Cpp);
}

#[test]
fn test_tokenize_simple() {
    let source = "if (x > 5) { return true; }";
    let tokenizer = Tokenizer::new(source, Language::Rust);
    let tokens = tokenizer.tokenize().unwrap();

    let significant: Vec<_> = tokens.iter().filter(|t| t.token_type.is_significant()).collect();

    assert!(!significant.is_empty());
    assert!(tokens.iter().any(|t| matches!(t.token_type, TokenType::If)));
}

#[test]
fn test_decision_points() {
    let source = "if (x && y || z) { while (true) { } }";
    let tokenizer = Tokenizer::new(source, Language::Rust);
    let tokens = tokenizer.tokenize().unwrap();
    let decision_count = tokens.iter().filter(|t| t.token_type.is_decision_point()).count();
    assert_eq!(decision_count, 4);
}

#[test]
fn tokenizer_test_comments() {
    let source = "\n// Single line comment\n/* Multi-line\n   comment */\nlet x = 5;\n";
    let tokenizer = Tokenizer::new(source, Language::Rust);
    let tokens = tokenizer.tokenize().unwrap();

    let comments: Vec<_> = tokens
        .iter()
        .filter(|t| matches!(t.token_type, TokenType::Comment))
        .collect();

    assert_eq!(comments.len(), 2);
}

#[test]
fn test_strings() {
    let source = "let s = \"hello \\\"world\\\"\"; let c = 'x';";
    let tokenizer = Tokenizer::new(source, Language::Rust);
    let tokens = tokenizer.tokenize().unwrap();

    let literals: Vec<_> = tokens
        .iter()
        .filter(|t| matches!(t.token_type, TokenType::Literal(_)))
        .collect();

    assert!(literals.len() >= 2);
}
