use mccabre::misses::compute_miss_ranges;

#[test]
fn test_no_misses() {
    let lines = vec![(1, 10), (2, 5), (3, 1)];

    let ranges = compute_miss_ranges(&lines);
    assert!(ranges.is_empty());
}

#[test]
fn test_single_miss() {
    let lines = vec![(1, 10), (2, 0), (3, 5)];

    let ranges = compute_miss_ranges(&lines);
    assert_eq!(ranges, vec![(2, 2)]);
}

#[test]
fn test_consecutive_misses() {
    let lines = vec![(1, 10), (2, 0), (3, 0), (4, 0), (5, 5)];

    let ranges = compute_miss_ranges(&lines);
    assert_eq!(ranges, vec![(2, 4)]);
}

#[test]
fn test_multiple_miss_ranges() {
    let lines = vec![(1, 10), (2, 0), (3, 0), (4, 5), (5, 0), (6, 10)];

    let ranges = compute_miss_ranges(&lines);
    assert_eq!(ranges, vec![(2, 3), (5, 5)]);
}

#[test]
fn test_all_misses() {
    let lines = vec![(1, 0), (2, 0), (3, 0)];

    let ranges = compute_miss_ranges(&lines);
    assert_eq!(ranges, vec![(1, 3)]);
}

#[test]
fn test_empty_lines() {
    let lines: Vec<(u32, u64)> = Vec::new();
    let ranges = compute_miss_ranges(&lines);
    assert!(ranges.is_empty());
}

#[test]
fn test_miss_at_start() {
    let lines = vec![(1, 0), (2, 0), (3, 10)];

    let ranges = compute_miss_ranges(&lines);
    assert_eq!(ranges, vec![(1, 2)]);
}

#[test]
fn test_miss_at_end() {
    let lines = vec![(1, 10), (2, 5), (3, 0), (4, 0)];

    let ranges = compute_miss_ranges(&lines);
    assert_eq!(ranges, vec![(3, 4)]);
}
