use vstd::prelude::*;

verus! {

/// The records rendered as lines: each record on a line of its own,
/// with a newline between neighbours and none at the end.
pub open spec fn join_lines(records: Seq<Seq<char>>) -> Seq<char>
    decreases records.len(),
{
    if records.len() == 0 {
        Seq::empty()
    } else if records.len() == 1 {
        records[0]
    } else {
        join_lines(records.drop_last()) + "\n"@ + records.last()
    }
}

/// Accumulates pre-rendered records and hands them out one per line.
/// Turning a value into its record text is the caller's concern.
#[derive(Debug)]
pub struct JsonlReporter {
    output: Vec<String>,
}

impl JsonlReporter {
    /// The records accumulated so far, in order.
    pub closed spec fn spec_records(&self) -> Seq<Seq<char>> {
        self.output@.map_values(|s: String| s@)
    }

    pub fn new() -> (r: Self)
        ensures
            r.spec_records() == Seq::<Seq<char>>::empty(),
    {
        let reporter = Self { output: Vec::new() };
        proof {
            assert(reporter.spec_records() =~= Seq::<Seq<char>>::empty());
        }
        reporter
    }

    /// Append one rendered record.
    pub fn add_record(&mut self, record: String)
        ensures
            final(self).spec_records() == old(self).spec_records().push(record@),
    {
        let ghost before = self.spec_records();
        let ghost rec = record@;
        self.output.push(record);
        proof {
            assert(self.spec_records() =~= before.push(rec));
        }
    }

    /// All records joined by newlines, without a trailing one.
    pub fn as_string(&self) -> (r: String)
        ensures
            r@ == join_lines(self.spec_records()),
    {
        let ghost records = self.spec_records();
        let mut result = String::new();
        let mut i: usize = 0;
        proof {
            assert(records.take(0int) =~= Seq::<Seq<char>>::empty());
        }
        while i < self.output.len()
            invariant
                i <= self.output@.len(),
                records == self.spec_records(),
                records.len() == self.output@.len(),
                result@ == join_lines(records.take(i as int)),
        decreases self.output@.len() - i,
        {
            if i > 0 {
                result.append("\n");
            }
            result.append(self.output[i].as_str());
            proof {
                let prefix = records.take(i as int + 1);
                assert(prefix.drop_last() =~= records.take(i as int));
                assert(prefix.last() == records[i as int]);
                assert(records[i as int] == self.output@[i as int]@);
                if i == 0 {
                    assert(join_lines(prefix) == records[0]);
                    assert(join_lines(records.take(0int)) =~= Seq::<char>::empty());
                    assert(result@ =~= records[0]);
                }
            }
            i = i + 1;
        }
        proof {
            assert(records.take(records.len() as int) =~= records);
        }
        result
    }
}

} // verus!
