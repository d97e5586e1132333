use vstd::prelude::*;
use crate::error::AggregateError;
use crate::laws::{lemma_partitioning_invariant, part, scan_parts};
use crate::merge::{merge_stations, merge_tables, total_records};
use crate::partition::{naive_start, no_line_break_from, part_end, split_file, valid_offsets};
use crate::scan::{after_line, line_end, parse_lines, scan_spec, thread};
use crate::station::ProcessedStation;
use crate::table::{names_sorted, to_map, StationTable};

verus! {

/// A scan never finds more records than its input has bytes.
pub proof fn lemma_records_bounded(d: Seq<u8>)
    ensures
        parse_lines(d) matches Ok(rs) ==> rs.len() <= d.len(),
    decreases d.len(),
{
    if d.len() > 0 {
        lemma_records_bounded(after_line(d));
        assert(0 <= line_end(d) <= d.len());
    }
}

proof fn lemma_scan_parts_error_stays(d: Seq<u8>, p: Seq<usize>, k: int, m: int)
    requires
        1 <= k <= m,
        scan_parts(d, p, k) is Err,
    ensures
        scan_parts(d, p, m) == scan_parts(d, p, k),
    decreases m - k,
{
    if m > k {
        lemma_scan_parts_error_stays(d, p, k, m - 1);
    }
}

/// Partitions `data` for `num_threads` workers, scans the partitions one
/// after the other, merges their tables and returns the stations in key
/// order: the work of a parallel run, in one thread.
pub fn aggregate(data: &[u8], num_threads: usize) -> (r: Result<
    Vec<ProcessedStation>,
    AggregateError,
>)
    requires
        num_threads >= 1,
    ensures
        (exists|i: int|
            0 < i < num_threads && no_line_break_from(
                data@,
                #[trigger] naive_start(data@.len() as int, num_threads as int, i),
            )) ==> r == Err::<Vec<ProcessedStation>, AggregateError>(AggregateError::NoLineBreak),
        !(exists|i: int|
            0 < i < num_threads && no_line_break_from(
                data@,
                #[trigger] naive_start(data@.len() as int, num_threads as int, i),
            )) ==> match scan_spec(data@) {
            Ok(m) => r matches Ok(v) && names_sorted(v@) && to_map(v@) == m && forall|i: int|
                0 <= i < v@.len() ==> (#[trigger] v@[i]).wf(),
            Err(e) => r == Err::<Vec<ProcessedStation>, AggregateError>(e),
        },
{
    let offsets = match split_file(num_threads, data) {
        Ok(p) => p,
        Err(e) => {
            return Err(e);
        },
    };
    let ghost d = data@;
    assert(data@.len() == data.len());
    let ghost p = offsets@;
    let mut tables: Vec<StationTable> = Vec::new();
    let mut i: usize = 0;
    assert(tables@ =~= Seq::<StationTable>::empty());
    while i < offsets.len()
        invariant
            d == data@,
            p == offsets@,
            valid_offsets(d, p),
            i <= p.len(),
            tables@.len() == i,
            forall|j: int| 0 <= j < i ==> (#[trigger] tables@[j]).wf(),
            scan_parts(d, p, i as int) == Ok::<
                Map<Seq<u8>, crate::station::Agg>,
                AggregateError,
            >(merge_tables(tables@)),
            i == 0 ==> total_records(tables@) == 0,
            i > 0 ==> total_records(tables@) <= part_end(d, p, i - 1),
            !(exists|k: int|
                0 < k < num_threads && no_line_break_from(
                    data@,
                    #[trigger] naive_start(data@.len() as int, num_threads as int, k),
                )),
            p.len() == num_threads,
            data@.len() <= usize::MAX,
        decreases p.len() - i,
    {
        let start = offsets[i];
        let end = if i + 1 < offsets.len() {
            offsets[i + 1]
        } else {
            data.len()
        };
        proof {
            if i + 1 < p.len() {
                assert(p[i as int] <= p[i + 1]);
            }
            assert(part(d, p, i as int) == d.subrange(start as int, end as int));
            if i > 0 {
                assert(part_end(d, p, i - 1) == start);
            }
        }
        match thread(data, start, end) {
            Ok(t) => {
                proof {
                    lemma_records_bounded(d.subrange(start as int, end as int));
                    assert(tables@.push(t).drop_last() =~= tables@);
                }
                tables.push(t);
            },
            Err(e) => {
                proof {
                    assert(scan_parts(d, p, i + 1) == Err::<
                        Map<Seq<u8>, crate::station::Agg>,
                        AggregateError,
                    >(e));
                    lemma_scan_parts_error_stays(d, p, i + 1, p.len() as int);
                    lemma_partitioning_invariant(d, p, p);
                }
                return Err(e);
            },
        }
        i = i + 1;
    }
    proof {
        lemma_partitioning_invariant(d, p, p);
    }
    let merged = merge_stations(tables);
    Ok(merged.into_sorted())
}

} // verus!
