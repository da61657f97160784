use vstd::prelude::*;

verus! {

/// The maximal runs of uncovered lines from position `i` on, with the
/// run currently being grown: a zero-count line starts or extends a
/// run, a covered line closes the open run, and adjacency is by
/// consecutive line numbers.
pub open spec fn miss_ranges_from(
    lines: Seq<(u32, u64)>,
    i: int,
    current: Option<(u32, u32)>,
) -> Seq<(u32, u32)>
    decreases lines.len() - i when 0 <= i <= lines.len()
{
    if i >= lines.len() {
        match current {
            Some(range) => seq![range],
            None => Seq::empty(),
        }
    } else {
        let entry = lines[i];
        if entry.1 == 0 {
            match current {
                None => miss_ranges_from(lines, i + 1, Some((entry.0, entry.0))),
                Some(range) => if entry.0 == range.1 + 1 {
                    miss_ranges_from(lines, i + 1, Some((range.0, entry.0)))
                } else {
                    seq![range] + miss_ranges_from(lines, i + 1, Some((entry.0, entry.0)))
                },
            }
        } else {
            match current {
                Some(range) => seq![range] + miss_ranges_from(lines, i + 1, None),
                None => miss_ranges_from(lines, i + 1, None),
            }
        }
    }
}

/// All maximal runs of uncovered lines of a coverage table.
pub open spec fn spec_miss_ranges(lines: Seq<(u32, u64)>) -> Seq<(u32, u32)> {
    miss_ranges_from(lines, 0, None)
}

/// Collapse a per-line hit-count table, ordered by line number, into
/// the inclusive ranges of consecutive lines that were never hit.
pub fn compute_miss_ranges(lines: &Vec<(u32, u64)>) -> (r: Vec<(u32, u32)>)
    requires
        forall|x: int, y: int|
            0 <= x < y < lines@.len() ==> (#[trigger] lines@[x]).0 < (#[trigger] lines@[y]).0,
    ensures
        r@ == spec_miss_ranges(lines@),
{
    let mut miss_ranges: Vec<(u32, u32)> = Vec::new();
    let mut current_range: Option<(u32, u32)> = None;
    let mut i: usize = 0;

    proof {
        assert(miss_ranges@ + miss_ranges_from(lines@, 0, None) =~= spec_miss_ranges(lines@));
    }
    while i < lines.len()
        invariant
            i <= lines@.len(),
            forall|x: int, y: int|
                0 <= x < y < lines@.len() ==> (#[trigger] lines@[x]).0 < (#[trigger] lines@[y]).0,
            spec_miss_ranges(lines@) == miss_ranges@ + miss_ranges_from(
                lines@,
                i as int,
                current_range,
            ),
            current_range matches Some(range) ==> (i < lines@.len() ==> range.1
                < lines@[i as int].0),
        decreases lines@.len() - i,
    {
        let (line, count) = lines[i];
        let ghost old_ranges = miss_ranges@;
        let ghost old_current = current_range;
        if count == 0 {
            match current_range {
                None => {
                    current_range = Some((line, line));
                },
                Some((start, end)) => {
                    if line == end + 1 {
                        current_range = Some((start, line));
                    } else {
                        miss_ranges.push((start, end));
                        current_range = Some((line, line));
                        proof {
                            assert(miss_ranges@ =~= old_ranges.push((start, end)));
                            assert(old_ranges + miss_ranges_from(lines@, i as int, old_current)
                                =~= miss_ranges@ + miss_ranges_from(
                                lines@,
                                i as int + 1,
                                current_range,
                            ));
                        }
                    }
                },
            }
        } else {
            if let Some(range) = current_range {
                miss_ranges.push(range);
                current_range = None;
                proof {
                    assert(old_ranges + miss_ranges_from(lines@, i as int, old_current)
                        =~= miss_ranges@ + miss_ranges_from(lines@, i as int + 1, current_range));
                }
            }
        }
        i = i + 1;
    }

    let ghost old_ranges = miss_ranges@;
    let ghost old_current = current_range;
    if let Some(range) = current_range {
        miss_ranges.push(range);
        proof {
            assert(old_ranges + miss_ranges_from(lines@, lines@.len() as int, old_current)
                =~= miss_ranges@);
        }
    }
    proof {
        assert(miss_ranges@ =~= spec_miss_ranges(lines@));
    }
    miss_ranges
}

} // verus!
