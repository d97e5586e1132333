use vstd::prelude::*;
use vstd::slice::slice_subrange;
use crate::error::AggregateError;
use crate::fixed::{parse_tenths, spec_tenths};
use crate::search::{find_byte, first_at, lemma_first_at_unique};
use crate::station::{single, Agg};
use crate::table::{add_agg, StationTable};

verus! {

pub const NEWLINE: u8 = 10;

pub const SEMICOLON: u8 = 59;

/// The end of the first line of `d`: its first line break, or the end of `d`.
pub open spec fn line_end(d: Seq<u8>) -> int {
    if exists|i: int| first_at(d, NEWLINE, i) {
        choose|i: int| first_at(d, NEWLINE, i)
    } else {
        d.len() as int
    }
}

/// What follows the first line of `d` and its line break.
pub open spec fn after_line(d: Seq<u8>) -> Seq<u8> {
    if line_end(d) < d.len() {
        d.subrange(line_end(d) + 1, d.len() as int)
    } else {
        Seq::empty()
    }
}

/// The key and the value in tenths of one non-empty line `key;value`.
pub open spec fn parse_record(line: Seq<u8>) -> Result<(Seq<u8>, int), AggregateError> {
    if exists|i: int| first_at(line, SEMICOLON, i) {
        let s = choose|i: int| first_at(line, SEMICOLON, i);
        match spec_tenths(line.subrange(s + 1, line.len() as int)) {
            Some(v) => Ok((line.subrange(0, s), v)),
            None => Err(AggregateError::InvalidValue),
        }
    } else {
        Err(AggregateError::MissingDelimiter)
    }
}

/// The records of `d` in order, empty lines skipped, or the error of the
/// first malformed line.
pub open spec fn parse_lines(d: Seq<u8>) -> Result<Seq<(Seq<u8>, int)>, AggregateError>
    decreases d.len(),
{
    if d.len() == 0 {
        Ok(Seq::empty())
    } else {
        let line = d.subrange(0, line_end(d));
        if line.len() == 0 {
            parse_lines(after_line(d))
        } else {
            match parse_record(line) {
                Err(e) => Err(e),
                Ok(r) => match parse_lines(after_line(d)) {
                    Ok(rs) => Ok(seq![r] + rs),
                    Err(e) => Err(e),
                },
            }
        }
    }
}

/// The table that the records `rs` fold into, one after the other.
pub open spec fn fold_records(rs: Seq<(Seq<u8>, int)>) -> Map<Seq<u8>, Agg>
    decreases rs.len(),
{
    if rs.len() == 0 {
        Map::empty()
    } else {
        add_agg(fold_records(rs.drop_last()), rs.last().0, single(rs.last().1))
    }
}

/// The table of all records of `d`, or the error of its first malformed line.
pub open spec fn scan_spec(d: Seq<u8>) -> Result<Map<Seq<u8>, Agg>, AggregateError> {
    match parse_lines(d) {
        Ok(rs) => Ok(fold_records(rs)),
        Err(e) => Err(e),
    }
}

pub open spec fn prepend(
    done: Seq<(Seq<u8>, int)>,
    r: Result<Seq<(Seq<u8>, int)>, AggregateError>,
) -> Result<Seq<(Seq<u8>, int)>, AggregateError> {
    match r {
        Ok(rs) => Ok(done + rs),
        Err(e) => Err(e),
    }
}

/// Scans the records of `data[start_idx..end_idx]` into a table. Empty lines
/// are skipped; the first line without `;`, or with a malformed value, stops
/// the scan with its error.
pub fn thread(data: &[u8], start_idx: usize, end_idx: usize) -> (r: Result<
    StationTable,
    AggregateError,
>)
    requires
        start_idx <= end_idx <= data@.len(),
    ensures
        match parse_lines(data@.subrange(start_idx as int, end_idx as int)) {
            Ok(rs) => r matches Ok(t) && t.wf() && t@ == fold_records(rs) && t.record_count()
                == rs.len(),
            Err(e) => r == Err::<StationTable, AggregateError>(e),
        },
{
    let d = slice_subrange(data, start_idx, end_idx);
    let mut t = StationTable::new();
    let ghost mut done: Seq<(Seq<u8>, int)> = Seq::empty();
    let mut pos: usize = 0;
    assert(d@.subrange(0, d@.len() as int) =~= d@);
    assert(done + Seq::empty() =~= done);
    while pos < d.len()
        invariant
            d@ == data@.subrange(start_idx as int, end_idx as int),
            pos <= d@.len(),
            t.wf(),
            t@ == fold_records(done),
            t.record_count() == done.len(),
            done.len() <= pos,
            prepend(done, parse_lines(d@.subrange(pos as int, d@.len() as int))) == parse_lines(
                d@,
            ),
        decreases d@.len() - pos,
    {
        let rest = slice_subrange(d, pos, d.len());
        let found = find_byte(NEWLINE, rest);
        let le: usize;
        let next: usize;
        match found {
            Some(i) => {
                le = pos + i;
                next = pos + i + 1;
                proof {
                    lemma_first_at_unique(rest@, NEWLINE, i as int, line_end(rest@));
                }
            },
            None => {
                le = d.len();
                next = d.len();
            },
        }
        assert(line_end(rest@) == le - pos);
        assert(after_line(rest@) =~= d@.subrange(next as int, d@.len() as int));
        let line = slice_subrange(d, pos, le);
        assert(line@ =~= rest@.subrange(0, line_end(rest@)));
        if le > pos {
            let semi = match find_byte(SEMICOLON, line) {
                Some(s) => s,
                None => {
                    proof {
                        assert forall|i: int| !first_at(line@, SEMICOLON, i) by {
                            if 0 <= i < line@.len() {
                                assert(line@[i] != SEMICOLON);
                            }
                        }
                        assert(parse_record(line@) == Err::<(Seq<u8>, int), AggregateError>(
                            AggregateError::MissingDelimiter,
                        ));
                        assert(parse_lines(rest@) == Err::<Seq<(Seq<u8>, int)>, AggregateError>(
                            AggregateError::MissingDelimiter,
                        ));
                        assert(rest@ == d@.subrange(pos as int, d@.len() as int));
                        assert(parse_lines(d@) == Err::<Seq<(Seq<u8>, int)>, AggregateError>(
                            AggregateError::MissingDelimiter,
                        ));
                    }
                    return Err(AggregateError::MissingDelimiter);
                },
            };
            proof {
                lemma_first_at_unique(
                    line@,
                    SEMICOLON,
                    semi as int,
                    choose|i: int| first_at(line@, SEMICOLON, i),
                );
            }
            let value = slice_subrange(line, semi + 1, line.len());
            let v = match parse_tenths(value) {
                Some(v) => v,
                None => {
                    proof {
                        assert(value@ =~= line@.subrange(semi + 1, line@.len() as int));
                        assert(parse_record(line@) == Err::<(Seq<u8>, int), AggregateError>(
                            AggregateError::InvalidValue,
                        ));
                        assert(parse_lines(rest@) == Err::<Seq<(Seq<u8>, int)>, AggregateError>(
                            AggregateError::InvalidValue,
                        ));
                        assert(rest@ == d@.subrange(pos as int, d@.len() as int));
                        assert(parse_lines(d@) == Err::<Seq<(Seq<u8>, int)>, AggregateError>(
                            AggregateError::InvalidValue,
                        ));
                    }
                    return Err(AggregateError::InvalidValue);
                },
            };
            let key = slice_subrange(line, 0, semi);
            assert(value@ =~= line@.subrange(semi + 1, line@.len() as int));
            t.record(key, v);
            let ghost r = (key@, v as int);
            proof {
                assert(parse_record(line@) == Ok::<(Seq<u8>, int), AggregateError>(r));
                match parse_lines(after_line(rest@)) {
                    Ok(rs) => {
                        assert(done.push(r) + rs =~= done + (seq![r] + rs));
                    },
                    Err(_) => {},
                }
                assert(done.push(r).drop_last() =~= done);
                done = done.push(r);
            }
        }
        pos = next;
    }
    Ok(t)
}

} // verus!
