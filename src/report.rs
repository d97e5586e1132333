use vstd::prelude::*;
use crate::fixed::{DOT, MINUS, ZERO};
use crate::station::{Agg, ProcessedStation};
use vstd::utf8::{decode_utf8, pop_first_scalar, valid_utf8, valid_utf8_concat};

verus! {

pub const EQUALS: u8 = 61;

pub const SLASH: u8 = 47;

pub const COMMA: u8 = 44;

pub const SPACE: u8 = 32;

pub const OPEN_BRACE: u8 = 123;

pub const CLOSE_BRACE: u8 = 125;

/// `a / c` rounded to the nearest integer, ties to the even one.
pub open spec fn round_half_even(a: nat, c: nat) -> nat
    recommends
        c > 0,
{
    let q = a / c;
    let r = a % c;
    if 2 * r > c || (2 * r == c && q % 2 == 1) {
        q + 1
    } else {
        q
    }
}

/// The average `sum / count` in tenths, rounded half to even.
pub open spec fn avg_tenths(sum: int, count: nat) -> int {
    if sum < 0 {
        -(round_half_even((-sum) as nat, count) as int)
    } else {
        round_half_even(sum as nat, count) as int
    }
}

/// The decimal digits of `n`, without leading zeros.
pub open spec fn digits(n: nat) -> Seq<u8>
    decreases n,
{
    if n < 10 {
        seq![(ZERO + n) as u8]
    } else {
        digits(n / 10).push((ZERO + n % 10) as u8)
    }
}

pub open spec fn abs(t: int) -> nat {
    if t < 0 {
        (-t) as nat
    } else {
        t as nat
    }
}

/// A value in tenths written with one fractional digit: `-2.3`, `10.0`.
pub open spec fn render_tenths(t: int) -> Seq<u8> {
    (if t < 0 {
        seq![MINUS]
    } else {
        Seq::empty()
    }) + digits(abs(t) / 10) + seq![DOT, (ZERO + abs(t) % 10) as u8]
}

/// `name=min/avg/max`.
pub open spec fn render_entry(name: Seq<u8>, a: Agg) -> Seq<u8> {
    name + seq![EQUALS] + render_tenths(a.min) + seq![SLASH] + render_tenths(
        avg_tenths(a.sum, a.count),
    ) + seq![SLASH] + render_tenths(a.max)
}

/// The entries of `es` joined by `, `.
pub open spec fn render_body(es: Seq<(Seq<u8>, Agg)>) -> Seq<u8>
    decreases es.len(),
{
    if es.len() == 0 {
        Seq::empty()
    } else if es.len() == 1 {
        render_entry(es[0].0, es[0].1)
    } else {
        render_body(es.drop_last()) + seq![COMMA, SPACE] + render_entry(es.last().0, es.last().1)
    }
}

/// The report `{name=min/avg/max, ...}` of `es`, in the order given.
pub open spec fn report_spec(es: Seq<(Seq<u8>, Agg)>) -> Seq<u8> {
    seq![OPEN_BRACE] + render_body(es) + seq![CLOSE_BRACE]
}

/// What the report reads of each station: its name and its statistics.
pub open spec fn entries_view(s: Seq<ProcessedStation>) -> Seq<(Seq<u8>, Agg)> {
    s.map_values(|x: ProcessedStation| (x.name_view(), x.agg()))
}

fn push_digit(out: &mut Vec<u8>, d: u16)
    requires
        d < 10,
    ensures
        final(out)@ == old(out)@.push((ZERO + d) as u8),
{
    out.push(ZERO + d as u8);
}

/// Appends `t` tenths as `[-]d[d].d`.
fn push_tenths(out: &mut Vec<u8>, t: i16)
    requires
        -999 <= t <= 999,
    ensures
        final(out)@ == old(out)@ + render_tenths(t as int),
{
    let ghost start = out@;
    let m: u16 = if t < 0 {
        (-t) as u16
    } else {
        t as u16
    };
    if t < 0 {
        out.push(MINUS);
    }
    let ghost signed = out@;
    let ip = m / 10;
    if ip >= 10 {
        push_digit(out, ip / 10);
        push_digit(out, ip % 10);
        assert(digits((ip / 10) as nat) == seq![(ZERO + ip / 10) as u8]);
        assert(out@ =~= signed + digits(ip as nat));
    } else {
        push_digit(out, ip);
        assert(out@ =~= signed + digits(ip as nat));
    }
    out.push(DOT);
    push_digit(out, m % 10);
    assert(out@ =~= start + render_tenths(t as int));
}

/// The average of `count` values summing to `sum`, in tenths, rounded half to even.
fn average(sum: i128, count: usize) -> (r: i16)
    requires
        count >= 1,
        -999 * count <= sum <= 999 * count,
    ensures
        r as int == avg_tenths(sum as int, count as nat),
        -999 <= r <= 999,
{
    let a: u128 = if sum < 0 {
        (-sum) as u128
    } else {
        sum as u128
    };
    let c = count as u128;
    let q = a / c;
    let rem = a % c;
    proof {
        vstd::arithmetic::div_mod::lemma_fundamental_div_mod(a as int, c as int);
        assert(a <= 999 * c);
        assert(q <= 999) by {
            if q >= 1000 {
                assert(q * c >= 1000 * c) by (nonlinear_arith)
                    requires
                        q >= 1000,
                        c >= 1,
                ;
                assert(c * q == q * c) by (nonlinear_arith);
            }
        }
        if q == 999 {
            assert(c * q == 999 * c) by (nonlinear_arith)
                requires
                    q == 999,
            ;
        }
    }
    let up = 2 * rem > c || (2 * rem == c && q % 2 == 1);
    let m = if up {
        q + 1
    } else {
        q
    };
    if sum < 0 {
        -(m as i16)
    } else {
        m as i16
    }
}

/// Appends `name=min/avg/max` for `st`.
fn push_entry(out: &mut Vec<u8>, st: &ProcessedStation)
    requires
        st.wf(),
    ensures
        final(out)@ == old(out)@ + render_entry(st.name_view(), st.agg()),
{
    let ghost start = out@;
    let name = st.name();
    let mut i: usize = 0;
    while i < name.len()
        invariant
            out@ == start + name@.subrange(0, i as int),
            i <= name@.len(),
        decreases name@.len() - i,
    {
        out.push(name[i]);
        i = i + 1;
        assert(out@ =~= start + name@.subrange(0, i as int));
    }
    assert(name@.subrange(0, name@.len() as int) =~= name@);
    out.push(EQUALS);
    push_tenths(out, st.min());
    out.push(SLASH);
    let avg = average(st.sum(), st.count());
    push_tenths(out, avg);
    out.push(SLASH);
    push_tenths(out, st.max());
    assert(out@ =~= start + render_entry(st.name_view(), st.agg()));
}

/// Renders the stations, in the order given, as `{name=min/avg/max, ...}`.
pub fn report_bytes(stations: &[ProcessedStation]) -> (r: Vec<u8>)
    requires
        forall|i: int| 0 <= i < stations@.len() ==> (#[trigger] stations@[i]).wf(),
    ensures
        r@ == report_spec(entries_view(stations@)),
{
    let ghost es = entries_view(stations@);
    let mut out: Vec<u8> = Vec::new();
    out.push(OPEN_BRACE);
    let mut i: usize = 0;
    while i < stations.len()
        invariant
            i <= stations@.len(),
            es == entries_view(stations@),
            forall|j: int| 0 <= j < stations@.len() ==> (#[trigger] stations@[j]).wf(),
            out@ == seq![OPEN_BRACE] + render_body(es.subrange(0, i as int)),
        decreases stations@.len() - i,
    {
        let ghost before = out@;
        if i > 0 {
            out.push(COMMA);
            out.push(SPACE);
        }
        push_entry(&mut out, &stations[i]);
        proof {
            let pre = es.subrange(0, i + 1);
            assert(pre.drop_last() =~= es.subrange(0, i as int));
            if i == 0 {
                assert(out@ =~= seq![OPEN_BRACE] + render_body(pre));
            } else {
                assert(out@ =~= seq![OPEN_BRACE] + render_body(pre));
            }
        }
        i = i + 1;
    }
    out.push(CLOSE_BRACE);
    assert(es.subrange(0, es.len() as int) =~= es);
    out
}

proof fn lemma_ascii_valid(b: Seq<u8>)
    requires
        forall|i: int| 0 <= i < b.len() ==> b[i] < 128,
    ensures
        valid_utf8(b),
    decreases b.len(),
{
    if b.len() > 0 {
        let b0 = b[0];
        assert(b0 & 0x7f <= 0x7f) by (bit_vector);
        assert(pop_first_scalar(b) =~= b.drop_first());
        lemma_ascii_valid(b.drop_first());
    }
}

proof fn lemma_digits_ascii(n: nat)
    ensures
        forall|i: int| 0 <= i < digits(n).len() ==> digits(n)[i] < 128,
    decreases n,
{
    if n >= 10 {
        lemma_digits_ascii(n / 10);
        let d = digits(n / 10);
        assert(n % 10 < 10);
        assert forall|i: int| 0 <= i < digits(n).len() implies digits(n)[i] < 128 by {
            if i < d.len() {
                assert(digits(n)[i] == d[i]);
            }
        }
    }
}

proof fn lemma_entry_valid(name: Seq<u8>, a: Agg)
    requires
        valid_utf8(name),
    ensures
        valid_utf8(render_entry(name, a)),
{
    lemma_digits_ascii(abs(a.min) / 10);
    lemma_digits_ascii(abs(a.max) / 10);
    lemma_digits_ascii(abs(avg_tenths(a.sum, a.count)) / 10);
    let tail = seq![EQUALS] + render_tenths(a.min) + seq![SLASH] + render_tenths(
        avg_tenths(a.sum, a.count),
    ) + seq![SLASH] + render_tenths(a.max);
    assert(render_entry(name, a) =~= name + tail);
    lemma_ascii_valid(tail);
    valid_utf8_concat(name, tail);
}

proof fn lemma_body_valid(es: Seq<(Seq<u8>, Agg)>)
    requires
        forall|i: int| 0 <= i < es.len() ==> valid_utf8(#[trigger] es[i].0),
    ensures
        valid_utf8(render_body(es)),
    decreases es.len(),
{
    if es.len() == 1 {
        lemma_entry_valid(es[0].0, es[0].1);
    } else if es.len() > 1 {
        lemma_body_valid(es.drop_last());
        lemma_entry_valid(es.last().0, es.last().1);
        let sep = seq![COMMA, SPACE];
        lemma_ascii_valid(sep);
        valid_utf8_concat(render_body(es.drop_last()), sep);
        valid_utf8_concat(
            render_body(es.drop_last()) + sep,
            render_entry(es.last().0, es.last().1),
        );
    }
}

/// Relies on String::from_utf8: it succeeds exactly on valid UTF-8, and the
/// string then holds the decoded characters.
#[verifier::external_body]
fn string_from_utf8(b: Vec<u8>) -> (r: Option<String>)
    ensures
        r is Some <==> valid_utf8(b@),
        r matches Some(s) ==> s@ == decode_utf8(b@),
{
    String::from_utf8(b).ok()
}

/// Renders the stations as the report string; `None` when the report is not
/// valid UTF-8, which takes a name that is not.
pub fn format_results(stations: &[ProcessedStation]) -> (r: Option<String>)
    requires
        forall|i: int| 0 <= i < stations@.len() ==> (#[trigger] stations@[i]).wf(),
    ensures
        r is Some <==> valid_utf8(report_spec(entries_view(stations@))),
        r matches Some(s) ==> s@ == decode_utf8(report_spec(entries_view(stations@))),
        (forall|i: int|
            0 <= i < stations@.len() ==> valid_utf8(#[trigger] stations@[i].name_view()))
            ==> r is Some,
{
    let bytes = report_bytes(stations);
    proof {
        let es = entries_view(stations@);
        if forall|i: int|
            0 <= i < stations@.len() ==> valid_utf8(#[trigger] stations@[i].name_view()) {
            assert forall|i: int| 0 <= i < es.len() implies valid_utf8(#[trigger] es[i].0) by {
                assert(es[i].0 == stations@[i].name_view());
            }
            lemma_body_valid(es);
            let open = seq![OPEN_BRACE];
            let close = seq![CLOSE_BRACE];
            lemma_ascii_valid(open);
            lemma_ascii_valid(close);
            valid_utf8_concat(open, render_body(es));
            valid_utf8_concat(open + render_body(es), close);
        }
    }
    string_from_utf8(bytes)
}

} // verus!
