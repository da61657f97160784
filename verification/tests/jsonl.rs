use mccabre::jsonl::JsonlReporter;

#[test]
fn test_jsonl_reporter_empty() {
    let reporter = JsonlReporter::new();
    assert_eq!(reporter.as_string(), "");
}

#[test]
fn records_come_out_one_per_line() {
    let mut reporter = JsonlReporter::new();
    reporter.add_record(String::from("{\"path\":\"a.rs\"}"));
    reporter.add_record(String::from("{\"path\":\"b.rs\"}"));
    assert_eq!(reporter.as_string(), "{\"path\":\"a.rs\"}\n{\"path\":\"b.rs\"}");
}
