use vstd::prelude::*;
use vstd::slice::slice_subrange;
use crate::error::AggregateError;
use crate::scan::NEWLINE;
use crate::search::find_byte;

verus! {

/// The naive start of partition `i` of `n` over `len` bytes.
pub open spec fn naive_start(len: int, n: int, i: int) -> int {
    (len / n) * i
}

/// `p` is the position right after the first line break at or after `s`.
pub open spec fn next_line_start(d: Seq<u8>, s: int, p: int) -> bool {
    &&& s < p <= d.len()
    &&& d[p - 1] == NEWLINE
    &&& forall|m: int| s <= m < p - 1 ==> d[m] != NEWLINE
}

/// No line break at or after `s`.
pub open spec fn no_line_break_from(d: Seq<u8>, s: int) -> bool {
    forall|m: int| s <= m < d.len() ==> d[m] != NEWLINE
}

/// Partition starts of `d`: the first is 0, they never decrease, none passes
/// the end, and every other one follows a line break.
pub open spec fn valid_offsets(d: Seq<u8>, p: Seq<usize>) -> bool {
    &&& p.len() >= 1
    &&& p[0] == 0
    &&& forall|i: int| 0 <= i < p.len() ==> #[trigger] p[i] <= d.len()
    &&& forall|i: int, j: int| 0 <= i <= j < p.len() ==> #[trigger] p[i] <= #[trigger] p[j]
    &&& forall|i: int| 0 < i < p.len() ==> #[trigger] p[i] == 0 || d[p[i] - 1] == NEWLINE
}

/// The end of partition `i`: the start of the next one, or the end of `d`.
pub open spec fn part_end(d: Seq<u8>, p: Seq<usize>, i: int) -> int {
    if i + 1 < p.len() {
        p[i + 1] as int
    } else {
        d.len() as int
    }
}

proof fn lemma_naive_start(len: int, n: int, i: int)
    requires
        0 <= len,
        0 < n,
        0 < i < n,
    ensures
        naive_start(len, n, i - 1) <= naive_start(len, n, i) <= len,
{
    let q = len / n;
    vstd::arithmetic::div_mod::lemma_fundamental_div_mod(len, n);
    assert(0 <= q) by {
        vstd::arithmetic::div_mod::lemma_div_pos_is_pos(len, n);
    }
    assert(q * (i - 1) <= q * i <= q * n) by (nonlinear_arith)
        requires
            0 <= q,
            0 < i < n,
    ;
    assert(q * n == n * q) by (nonlinear_arith);
}

/// Computes `num_threads` partition starts over `data`: 0, then for each
/// `i` the position right after the first line break at or after
/// `data.len() / num_threads * i`.
pub fn split_file(num_threads: usize, data: &[u8]) -> (r: Result<Vec<usize>, AggregateError>)
    requires
        num_threads >= 1,
    ensures
        r is Err <==> exists|i: int|
            0 < i < num_threads && no_line_break_from(
                data@,
                #[trigger] naive_start(data@.len() as int, num_threads as int, i),
            ),
        r matches Err(e) ==> e == AggregateError::NoLineBreak,
        r matches Ok(p) ==> {
            &&& p@.len() == num_threads
            &&& valid_offsets(data@, p@)
            &&& forall|i: int|
                0 < i < num_threads ==> next_line_start(
                    data@,
                    naive_start(data@.len() as int, num_threads as int, i),
                    #[trigger] p@[i] as int,
                )
        },
{
    let len = data.len();
    let step = len / num_threads;
    let mut poses: Vec<usize> = vec![0];
    let mut i: usize = 1;
    while i < num_threads
        invariant
            len == data@.len(),
            step == len / num_threads,
            num_threads >= 1,
            1 <= i <= num_threads,
            poses@.len() == i,
            valid_offsets(data@, poses@),
            forall|j: int|
                0 < j < i ==> next_line_start(
                    data@,
                    naive_start(len as int, num_threads as int, j),
                    #[trigger] poses@[j] as int,
                ),
        decreases num_threads - i,
    {
        proof {
            lemma_naive_start(len as int, num_threads as int, i as int);
        }
        let start = step * i;
        let rest = slice_subrange(data, start, len);
        match find_byte(NEWLINE, rest) {
            Some(k) => {
                let pos = start + k + 1;
                proof {
                    let prev = poses@[i - 1] as int;
                    assert(data@[start + k] == rest@[k as int]);
                    assert forall|m: int| start <= m < pos - 1 implies data@[m] != NEWLINE by {
                        assert(data@[m] == rest@[m - start]);
                    }
                    if i > 1 && pos < prev {
                        assert(next_line_start(
                            data@,
                            naive_start(len as int, num_threads as int, i - 1),
                            prev,
                        ));
                        assert(data@[pos - 1] != NEWLINE);
                    }
                }
                poses.push(pos);
            },
            None => {
                proof {
                    assert forall|m: int| start <= m < len implies data@[m] != NEWLINE by {
                        assert(data@[m] == rest@[m - start]);
                    }
                    assert(no_line_break_from(
                        data@,
                        naive_start(len as int, num_threads as int, i as int),
                    ));
                }
                return Err(AggregateError::NoLineBreak);
            },
        }
        i = i + 1;
    }
    proof {
        assert forall|i: int|
            0 < i < num_threads && no_line_break_from(
                data@,
                #[trigger] naive_start(data@.len() as int, num_threads as int, i),
            ) implies false by {
            assert(next_line_start(
                data@,
                naive_start(len as int, num_threads as int, i),
                poses@[i] as int,
            ));
        }
    }
    Ok(poses)
}

} // verus!
