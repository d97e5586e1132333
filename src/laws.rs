//! Properties of the pipeline as a whole: partitioning and merging never
//! change the result, and the report depends on the data alone.
use vstd::prelude::*;
use crate::merge::merge_tables;
use crate::order::{lemma_lex_irreflexive, lemma_lex_transitive};
use crate::partition::{part_end, valid_offsets};
use crate::report::{entries_view, report_spec};
use crate::scan::{
    after_line, fold_records, line_end, parse_lines, scan_spec, NEWLINE,
};
use crate::search::{first_at, lemma_first_at_unique};
use crate::station::{combine, single, Agg, ProcessedStation};
use crate::table::{
    add_agg, lemma_merge_add, lemma_to_map_at, lemma_to_map_key, merge_maps, names_sorted,
    to_map, StationTable,
};

verus! {

/// Merging tables is commutative.
pub proof fn lemma_merge_commutative(m1: Map<Seq<u8>, Agg>, m2: Map<Seq<u8>, Agg>)
    ensures
        merge_maps(m1, m2) == merge_maps(m2, m1),
{
    assert(merge_maps(m1, m2) =~= merge_maps(m2, m1));
}

/// Merging tables is associative.
pub proof fn lemma_merge_associative(
    m1: Map<Seq<u8>, Agg>,
    m2: Map<Seq<u8>, Agg>,
    m3: Map<Seq<u8>, Agg>,
)
    ensures
        merge_maps(merge_maps(m1, m2), m3) == merge_maps(m1, merge_maps(m2, m3)),
{
    assert(merge_maps(merge_maps(m1, m2), m3) =~= merge_maps(m1, merge_maps(m2, m3)));
}

/// A single record alone gives `min = max = sum = value` and `count = 1`;
/// a second record of the same key gives the extremes, sum and count of both.
pub proof fn lemma_one_and_two_records(k: Seq<u8>, v: int, w: int)
    ensures
        fold_records(seq![(k, v)]) == map![k => single(v)],
        fold_records(seq![(k, v), (k, w)]) == map![k => combine(single(v), single(w))],
{
    assert(seq![(k, v)].drop_last() =~= Seq::<(Seq<u8>, int)>::empty());
    assert(fold_records(Seq::<(Seq<u8>, int)>::empty()) == Map::<Seq<u8>, Agg>::empty());
    assert(fold_records(seq![(k, v)]) =~= map![k => single(v)]);
    assert(seq![(k, v), (k, w)].drop_last() =~= seq![(k, v)]);
    assert(fold_records(seq![(k, v), (k, w)]) =~= map![k => combine(single(v), single(w))]);
}

/// Folding two runs of records one after the other is merging their tables.
pub proof fn lemma_fold_concat(r1: Seq<(Seq<u8>, int)>, r2: Seq<(Seq<u8>, int)>)
    ensures
        fold_records(r1 + r2) == merge_maps(fold_records(r1), fold_records(r2)),
    decreases r2.len(),
{
    if r2.len() == 0 {
        assert(r1 + r2 =~= r1);
        assert(merge_maps(fold_records(r1), Map::empty()) =~= fold_records(r1));
    } else {
        lemma_fold_concat(r1, r2.drop_last());
        assert((r1 + r2).drop_last() =~= r1 + r2.drop_last());
        lemma_merge_add(
            fold_records(r1),
            fold_records(r2.drop_last()),
            r2.last().0,
            single(r2.last().1),
        );
    }
}

/// `a` is empty or ends with a line break.
pub open spec fn ends_at_line(a: Seq<u8>) -> bool {
    a.len() == 0 || a[a.len() - 1] == NEWLINE
}

/// The records of `a + b`, where `a` ends at a line, are those of `a` then
/// those of `b`; the first malformed line decides the error.
pub proof fn lemma_parse_concat(a: Seq<u8>, b: Seq<u8>)
    requires
        ends_at_line(a),
    ensures
        parse_lines(a + b) == match parse_lines(a) {
            Err(e) => Err(e),
            Ok(ra) => match parse_lines(b) {
                Ok(rb) => Ok(ra + rb),
                Err(e) => Err(e),
            },
        },
    decreases a.len(),
{
    if a.len() == 0 {
        assert(a + b =~= b);
        match parse_lines(b) {
            Ok(rb) => {
                assert(Seq::<(Seq<u8>, int)>::empty() + rb =~= rb);
            },
            Err(_) => {},
        }
    } else {
        let ab = a + b;
        lemma_first_newline_exists(a, a.len() - 1);
        assert(first_at(a, NEWLINE, line_end(a)));
        let e = line_end(a);
        assert(first_at(ab, NEWLINE, e));
        lemma_first_at_unique(ab, NEWLINE, e, line_end(ab));
        assert(ab.subrange(0, e) =~= a.subrange(0, e));
        assert(after_line(ab) =~= after_line(a) + b);
        lemma_parse_concat(after_line(a), b);
        match parse_lines(after_line(a)) {
            Ok(ra) => match parse_lines(b) {
                Ok(rb) => {
                    let line = a.subrange(0, e);
                    if line.len() > 0 {
                        match crate::scan::parse_record(line) {
                            Ok(r) => {
                                assert(seq![r] + (ra + rb) =~= (seq![r] + ra) + rb);
                            },
                            Err(_) => {},
                        }
                    }
                },
                Err(_) => {},
            },
            Err(_) => {},
        }
    }
}

proof fn lemma_first_newline_exists(a: Seq<u8>, k: int)
    requires
        0 <= k < a.len(),
        a[k] == NEWLINE,
    ensures
        exists|i: int| first_at(a, NEWLINE, i),
    decreases k,
{
    if exists|j: int| 0 <= j < k && a[j] == NEWLINE {
        let j = choose|j: int| 0 <= j < k && a[j] == NEWLINE;
        lemma_first_newline_exists(a, j);
    } else {
        assert(first_at(a, NEWLINE, k));
    }
}

/// Scanning `a + b`, where `a` ends at a line, is scanning both and merging.
pub proof fn lemma_scan_concat(a: Seq<u8>, b: Seq<u8>)
    requires
        ends_at_line(a),
    ensures
        scan_spec(a + b) == match scan_spec(a) {
            Err(e) => Err(e),
            Ok(ma) => match scan_spec(b) {
                Ok(mb) => Ok(merge_maps(ma, mb)),
                Err(e) => Err(e),
            },
        },
{
    lemma_parse_concat(a, b);
    match (parse_lines(a), parse_lines(b)) {
        (Ok(ra), Ok(rb)) => {
            lemma_fold_concat(ra, rb);
        },
        _ => {},
    }
}

/// The bytes of partition `i` of `d` under the starts `p`.
pub open spec fn part(d: Seq<u8>, p: Seq<usize>, i: int) -> Seq<u8> {
    d.subrange(p[i] as int, part_end(d, p, i))
}

/// Scanning the first `k` partitions one by one and merging the tables in
/// order; the first partition that fails decides the error.
pub open spec fn scan_parts(d: Seq<u8>, p: Seq<usize>, k: int) -> Result<
    Map<Seq<u8>, Agg>,
    crate::error::AggregateError,
>
    decreases k,
{
    if k <= 0 {
        Ok(Map::empty())
    } else {
        match scan_parts(d, p, k - 1) {
            Err(e) => Err(e),
            Ok(m) => match scan_spec(part(d, p, k - 1)) {
                Ok(mk) => Ok(merge_maps(m, mk)),
                Err(e) => Err(e),
            },
        }
    }
}

proof fn lemma_scan_parts_prefix(d: Seq<u8>, p: Seq<usize>, k: int)
    requires
        valid_offsets(d, p),
        1 <= k <= p.len(),
    ensures
        scan_parts(d, p, k) == scan_spec(d.subrange(0, part_end(d, p, k - 1))),
    decreases k,
{
    assert(p[k - 1] <= part_end(d, p, k - 1)) by {
        if k < p.len() {
            assert(p[k - 1] <= p[k as int]);
        }
    }
    if k == 1 {
        assert(d.subrange(0, part_end(d, p, 0)) =~= part(d, p, 0));
        match scan_spec(part(d, p, 0)) {
            Ok(m) => {
                assert(merge_maps(Map::empty(), m) =~= m);
            },
            Err(_) => {},
        }
    } else {
        lemma_scan_parts_prefix(d, p, k - 1);
        let a = d.subrange(0, p[k - 1] as int);
        let b = part(d, p, k - 1);
        assert(ends_at_line(a)) by {
            if p[k - 1] > 0 {
                assert(a[a.len() - 1] == d[p[k - 1] - 1]);
            }
        }
        assert(d.subrange(0, part_end(d, p, k - 1)) =~= a + b);
        lemma_scan_concat(a, b);
    }
}

/// Scanning the partitions of any valid partitioning and merging the tables
/// gives what one scan of the whole input gives, so two partitionings (say
/// into one part and into eight) always agree.
pub proof fn lemma_partitioning_invariant(d: Seq<u8>, p: Seq<usize>, q: Seq<usize>)
    requires
        valid_offsets(d, p),
        valid_offsets(d, q),
    ensures
        scan_parts(d, p, p.len() as int) == scan_spec(d),
        scan_parts(d, p, p.len() as int) == scan_parts(d, q, q.len() as int),
{
    lemma_scan_parts_prefix(d, p, p.len() as int);
    lemma_scan_parts_prefix(d, q, q.len() as int);
    assert(d.subrange(0, d.len() as int) =~= d);
}

/// Tables that scanned the partitions of `d`, merged in order, hold the
/// statistics of a single scan of all of `d`.
pub proof fn lemma_merged_partitions(d: Seq<u8>, p: Seq<usize>, ts: Seq<StationTable>)
    requires
        valid_offsets(d, p),
        ts.len() == p.len(),
        forall|i: int| 0 <= i < p.len() ==> scan_spec(#[trigger] part(d, p, i)) == Ok::<
            Map<Seq<u8>, Agg>,
            crate::error::AggregateError,
        >(ts[i]@),
    ensures
        scan_spec(d) == Ok::<Map<Seq<u8>, Agg>, crate::error::AggregateError>(merge_tables(ts)),
{
    lemma_parts_merge(d, p, ts, p.len() as int);
    assert(ts.subrange(0, ts.len() as int) =~= ts);
    lemma_partitioning_invariant(d, p, p);
}

proof fn lemma_parts_merge(d: Seq<u8>, p: Seq<usize>, ts: Seq<StationTable>, k: int)
    requires
        0 <= k <= p.len(),
        ts.len() == p.len(),
        forall|i: int| 0 <= i < p.len() ==> scan_spec(#[trigger] part(d, p, i)) == Ok::<
            Map<Seq<u8>, Agg>,
            crate::error::AggregateError,
        >(ts[i]@),
    ensures
        scan_parts(d, p, k) == Ok::<Map<Seq<u8>, Agg>, crate::error::AggregateError>(
            merge_tables(ts.subrange(0, k)),
        ),
    decreases k,
{
    if k > 0 {
        lemma_parts_merge(d, p, ts, k - 1);
        assert(ts.subrange(0, k).drop_last() =~= ts.subrange(0, k - 1));
        assert(scan_spec(part(d, p, k - 1)) == Ok::<
            Map<Seq<u8>, Agg>,
            crate::error::AggregateError,
        >(ts[k - 1]@));
    } else {
        assert(ts.subrange(0, 0) =~= Seq::<StationTable>::empty());
    }
}

/// Concatenating the first `k` partitions.
pub open spec fn joined(d: Seq<u8>, p: Seq<usize>, k: int) -> Seq<u8>
    decreases k,
{
    if k <= 0 {
        Seq::empty()
    } else {
        joined(d, p, k - 1) + part(d, p, k - 1)
    }
}

/// The partitions of a valid partitioning, concatenated, give back the input.
pub proof fn lemma_partitions_rebuild(d: Seq<u8>, p: Seq<usize>)
    requires
        valid_offsets(d, p),
    ensures
        joined(d, p, p.len() as int) == d,
{
    lemma_joined_prefix(d, p, p.len() as int);
    assert(d.subrange(0, d.len() as int) =~= d);
}

proof fn lemma_joined_prefix(d: Seq<u8>, p: Seq<usize>, k: int)
    requires
        valid_offsets(d, p),
        1 <= k <= p.len(),
    ensures
        joined(d, p, k) == d.subrange(0, part_end(d, p, k - 1)),
    decreases k,
{
    assert(p[k - 1] <= part_end(d, p, k - 1)) by {
        if k < p.len() {
            assert(p[k - 1] <= p[k as int]);
        }
    }
    if k == 1 {
        assert(joined(d, p, 0) + part(d, p, 0) =~= d.subrange(0, part_end(d, p, 0)));
    } else {
        lemma_joined_prefix(d, p, k - 1);
        assert(joined(d, p, k - 1) + part(d, p, k - 1) =~= d.subrange(
            0,
            part_end(d, p, k - 1),
        ));
    }
}

/// Two key-ordered station sequences that hold the same table read the same.
pub proof fn lemma_sorted_unique(s1: Seq<ProcessedStation>, s2: Seq<ProcessedStation>)
    requires
        names_sorted(s1),
        names_sorted(s2),
        to_map(s1) == to_map(s2),
    ensures
        entries_view(s1) == entries_view(s2),
    decreases s1.len(),
{
    if s1.len() == 0 || s2.len() == 0 {
        if s1.len() > 0 {
            lemma_to_map_at(s1, 0);
        }
        if s2.len() > 0 {
            lemma_to_map_at(s2, 0);
        }
        assert(entries_view(s1) =~= entries_view(s2));
    } else {
        let k1 = s1[0].name_view();
        let k2 = s2[0].name_view();
        lemma_to_map_at(s1, 0);
        lemma_to_map_at(s2, 0);
        let j = lemma_to_map_key(s2, k1);
        let j2 = lemma_to_map_key(s1, k2);
        if j > 0 && j2 > 0 {
            lemma_lex_transitive(k1, k2, k1);
            lemma_lex_irreflexive(k1);
        }
        assert(k1 == k2);
        let t1 = s1.drop_first();
        let t2 = s2.drop_first();
        assert(names_sorted(t1)) by {
            assert forall|a: int, b: int| 0 <= a < b < t1.len() implies crate::order::lex_lt(
                #[trigger] t1[a].name_view(),
                #[trigger] t1[b].name_view(),
            ) by {
                assert(t1[a] == s1[a + 1] && t1[b] == s1[b + 1]);
            }
        }
        assert(names_sorted(t2)) by {
            assert forall|a: int, b: int| 0 <= a < b < t2.len() implies crate::order::lex_lt(
                #[trigger] t2[a].name_view(),
                #[trigger] t2[b].name_view(),
            ) by {
                assert(t2[a] == s2[a + 1] && t2[b] == s2[b + 1]);
            }
        }
        assert forall|b: int| 0 <= b < t1.len() implies crate::order::lex_lt(
            k1,
            #[trigger] t1[b].name_view(),
        ) by {
            assert(t1[b] == s1[b + 1]);
        }
        assert forall|b: int| 0 <= b < t2.len() implies crate::order::lex_lt(
            k2,
            #[trigger] t2[b].name_view(),
        ) by {
            assert(t2[b] == s2[b + 1]);
        }
        StationTable::lemma_insert_view(t1, 0, s1[0]);
        StationTable::lemma_insert_view(t2, 0, s2[0]);
        assert(t1.insert(0, s1[0]) =~= s1);
        assert(t2.insert(0, s2[0]) =~= s2);
        assert(to_map(t1) =~= to_map(s1).remove(k1));
        assert(to_map(t2) =~= to_map(s2).remove(k2));
        lemma_sorted_unique(t1, t2);
        assert(entries_view(s1) =~= seq![(k1, s1[0].agg())] + entries_view(t1));
        assert(entries_view(s2) =~= seq![(k2, s2[0].agg())] + entries_view(t2));
    }
}

/// Two tables with the same statistics render the same report, however they
/// were built.
pub proof fn lemma_report_deterministic(t1: StationTable, t2: StationTable)
    requires
        t1.wf(),
        t2.wf(),
        t1@ == t2@,
    ensures
        report_spec(entries_view(t1.entries())) == report_spec(entries_view(t2.entries())),
{
    lemma_sorted_unique(t1.entries(), t2.entries());
}

/// Merged tables of two valid partitionings of the same input render
/// byte-identical reports.
pub proof fn lemma_pipeline_deterministic(
    d: Seq<u8>,
    p: Seq<usize>,
    q: Seq<usize>,
    t1: StationTable,
    t2: StationTable,
)
    requires
        valid_offsets(d, p),
        valid_offsets(d, q),
        t1.wf(),
        t2.wf(),
        scan_parts(d, p, p.len() as int) == Ok::<
            Map<Seq<u8>, Agg>,
            crate::error::AggregateError,
        >(t1@),
        scan_parts(d, q, q.len() as int) == Ok::<
            Map<Seq<u8>, Agg>,
            crate::error::AggregateError,
        >(t2@),
    ensures
        report_spec(entries_view(t1.entries())) == report_spec(entries_view(t2.entries())),
{
    lemma_partitioning_invariant(d, p, q);
    lemma_report_deterministic(t1, t2);
}

} // verus!
