use mccabre::config::Config;

#[test]
fn test_default_config() {
    let config = Config::default();
    assert_eq!(config.complexity.warning_threshold, 10);
    assert_eq!(config.complexity.error_threshold, 20);
    assert_eq!(config.clones.min_tokens, 30);
    assert!(config.clones.enabled);
    assert!(config.files.respect_gitignore);
}

#[test]
fn test_merge_with_cli() {
    let mut config = Config::default();
    config = config.merge_with_cli(Some(15), Some(40), Some(false));

    assert_eq!(config.complexity.warning_threshold, 15);
    assert_eq!(config.clones.min_tokens, 40);
    assert!(!config.files.respect_gitignore);
}

#[test]
fn test_partial_cli_override() {
    let mut config = Config::default();
    config = config.merge_with_cli(Some(25), None, None);

    assert_eq!(config.complexity.warning_threshold, 25);
    assert_eq!(config.clones.min_tokens, 30);
    assert!(config.files.respect_gitignore);
}
