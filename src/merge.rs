use vstd::prelude::*;
use crate::station::Agg;
use crate::table::{merge_maps, StationTable};

verus! {

/// The merge of the tables in `ts`, in order.
pub open spec fn merge_tables(ts: Seq<StationTable>) -> Map<Seq<u8>, Agg>
    decreases ts.len(),
{
    if ts.len() == 0 {
        Map::empty()
    } else {
        merge_maps(merge_tables(ts.drop_last()), ts.last()@)
    }
}

/// How many records the tables in `ts` hold together.
pub open spec fn total_records(ts: Seq<StationTable>) -> int
    decreases ts.len(),
{
    if ts.len() == 0 {
        0
    } else {
        total_records(ts.drop_last()) + ts.last().record_count()
    }
}

proof fn lemma_total_prefix(ts: Seq<StationTable>, i: int, j: int)
    requires
        0 <= i <= j <= ts.len(),
    ensures
        total_records(ts.subrange(0, i)) <= total_records(ts.subrange(0, j)),
    decreases j - i,
{
    if i < j {
        lemma_total_prefix(ts, i, j - 1);
        assert(ts.subrange(0, j).drop_last() =~= ts.subrange(0, j - 1));
    }
}

/// Merges the per-partition tables into one.
pub fn merge_stations(thread_data: Vec<StationTable>) -> (r: StationTable)
    requires
        forall|i: int| 0 <= i < thread_data@.len() ==> (#[trigger] thread_data@[i]).wf(),
        total_records(thread_data@) <= usize::MAX,
    ensures
        r.wf(),
        r@ == merge_tables(thread_data@),
        r.record_count() == total_records(thread_data@),
{
    let ghost ts = thread_data@;
    let mut result = StationTable::new();
    let mut i: usize = 0;
    assert(ts.subrange(0, 0) =~= Seq::<StationTable>::empty());
    while i < thread_data.len()
        invariant
            ts == thread_data@,
            i <= ts.len(),
            forall|j: int| 0 <= j < ts.len() ==> (#[trigger] ts[j]).wf(),
            total_records(ts) <= usize::MAX,
            result.wf(),
            result@ == merge_tables(ts.subrange(0, i as int)),
            result.record_count() == total_records(ts.subrange(0, i as int)),
        decreases ts.len() - i,
    {
        proof {
            assert(ts.subrange(0, i + 1).drop_last() =~= ts.subrange(0, i as int));
            lemma_total_prefix(ts, i + 1, ts.len() as int);
            assert(ts.subrange(0, ts.len() as int) =~= ts);
        }
        result.absorb_table(&thread_data[i]);
        i = i + 1;
    }
    assert(ts.subrange(0, ts.len() as int) =~= ts);
    result
}

} // verus!
