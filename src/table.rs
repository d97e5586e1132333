use vstd::prelude::*;
use crate::order::{compare_bytes, lemma_lex_irreflexive, lemma_lex_transitive, lex_lt};
use crate::station::{combine, copy_bytes, single, Agg, ProcessedStation};

verus! {

/// `m` with the statistics `a` folded into those of key `k`.
pub open spec fn add_agg(m: Map<Seq<u8>, Agg>, k: Seq<u8>, a: Agg) -> Map<Seq<u8>, Agg> {
    if m.contains_key(k) {
        m.insert(k, combine(m[k], a))
    } else {
        m.insert(k, a)
    }
}

/// The table of the observations behind `m1` and behind `m2` together.
pub open spec fn merge_maps(m1: Map<Seq<u8>, Agg>, m2: Map<Seq<u8>, Agg>) -> Map<Seq<u8>, Agg> {
    Map::new(
        |k: Seq<u8>| m1.contains_key(k) || m2.contains_key(k),
        |k: Seq<u8>|
            if m1.contains_key(k) && m2.contains_key(k) {
                combine(m1[k], m2[k])
            } else if m1.contains_key(k) {
                m1[k]
            } else {
                m2[k]
            },
    )
}

/// Folding statistics into one side of a merge is folding them into the merge.
pub proof fn lemma_merge_add(m1: Map<Seq<u8>, Agg>, m2: Map<Seq<u8>, Agg>, k: Seq<u8>, a: Agg)
    ensures
        merge_maps(m1, add_agg(m2, k, a)) == add_agg(merge_maps(m1, m2), k, a),
{
    assert(merge_maps(m1, add_agg(m2, k, a)) =~= add_agg(merge_maps(m1, m2), k, a));
}

/// Names in strictly ascending byte order (hence unique).
pub open spec fn names_sorted(s: Seq<ProcessedStation>) -> bool {
    forall|i: int, j: int|
        0 <= i < j < s.len() ==> lex_lt(#[trigger] s[i].name_view(), #[trigger] s[j].name_view())
}

pub open spec fn has_name(s: Seq<ProcessedStation>, k: Seq<u8>) -> bool {
    exists|i: int| 0 <= i < s.len() && s[i].name_view() == k
}

/// The key-to-statistics map that a sequence of stations holds.
pub open spec fn to_map(s: Seq<ProcessedStation>) -> Map<Seq<u8>, Agg> {
    Map::new(
        |k: Seq<u8>| has_name(s, k),
        |k: Seq<u8>| s[choose|i: int| 0 <= i < s.len() && s[i].name_view() == k].agg(),
    )
}

pub proof fn lemma_names_unique(s: Seq<ProcessedStation>, i: int, j: int)
    requires
        names_sorted(s),
        0 <= i < s.len(),
        0 <= j < s.len(),
        s[i].name_view() == s[j].name_view(),
    ensures
        i == j,
{
    lemma_lex_irreflexive(s[i].name_view());
}

pub proof fn lemma_to_map_key(s: Seq<ProcessedStation>, k: Seq<u8>) -> (i: int)
    requires
        names_sorted(s),
        to_map(s).contains_key(k),
    ensures
        0 <= i < s.len(),
        s[i].name_view() == k,
        to_map(s)[k] == s[i].agg(),
{
    let i = choose|i: int| 0 <= i < s.len() && s[i].name_view() == k;
    lemma_to_map_at(s, i);
    i
}

pub proof fn lemma_to_map_at(s: Seq<ProcessedStation>, i: int)
    requires
        names_sorted(s),
        0 <= i < s.len(),
    ensures
        to_map(s).contains_key(s[i].name_view()),
        to_map(s)[s[i].name_view()] == s[i].agg(),
{
    let k = s[i].name_view();
    assert(has_name(s, k));
    let j = choose|j: int| 0 <= j < s.len() && s[j].name_view() == k;
    lemma_names_unique(s, i, j);
}

/// A table of per-key statistics, kept in ascending key order.
pub struct StationTable {
    stations: Vec<ProcessedStation>,
    records: usize,
}

impl View for StationTable {
    type V = Map<Seq<u8>, Agg>;

    closed spec fn view(&self) -> Map<Seq<u8>, Agg> {
        to_map(self.stations@)
    }
}

impl StationTable {
    /// The stations in ascending key order.
    pub closed spec fn entries(&self) -> Seq<ProcessedStation> {
        self.stations@
    }

    /// The number of records folded into the table.
    pub closed spec fn record_count(&self) -> nat {
        self.records as nat
    }

    pub open spec fn wf(&self) -> bool {
        &&& names_sorted(self.entries())
        &&& self@ == to_map(self.entries())
        &&& forall|i: int|
            0 <= i < self.entries().len() ==> (#[trigger] self.entries()[i]).wf()
                && self.entries()[i].agg().count <= self.record_count()
    }

    /// An empty table.
    pub fn new() -> (r: Self)
        ensures
            r.wf(),
            r@ == Map::<Seq<u8>, Agg>::empty(),
            r.record_count() == 0,
    {
        let r = StationTable { stations: Vec::new(), records: 0 };
        assert(r@ =~= Map::<Seq<u8>, Agg>::empty());
        r
    }

    /// How many records were folded into the table.
    pub fn records(&self) -> (r: usize)
        ensures
            r == self.record_count(),
    {
        self.records
    }

    /// How many distinct keys the table holds.
    pub fn len(&self) -> (r: usize)
        ensures
            r == self.entries().len(),
    {
        self.stations.len()
    }

    /// The stations, in ascending key order.
    pub fn into_sorted(self) -> (r: Vec<ProcessedStation>)
        requires
            self.wf(),
        ensures
            r@ == self.entries(),
    {
        self.stations
    }

    /// Where `key` is, or where it would be inserted to keep the order.
    fn locate(&self, key: &[u8]) -> (r: Result<usize, usize>)
        requires
            self.wf(),
        ensures
            r matches Ok(i) ==> i < self.entries().len() && self.entries()[i as int].name_view()
                == key@,
            r matches Err(p) ==> p <= self.entries().len() && (forall|j: int|
                0 <= j < p ==> lex_lt(#[trigger] self.entries()[j].name_view(), key@)) && (forall|
                j: int,
            |
                p <= j < self.entries().len() ==> lex_lt(
                    key@,
                    #[trigger] self.entries()[j].name_view(),
                )),
    {
        let ghost s = self.stations@;
        let mut lo: usize = 0;
        let mut hi: usize = self.stations.len();
        while lo < hi
            invariant
                s == self.stations@,
                names_sorted(s),
                lo <= hi <= s.len(),
                forall|j: int| 0 <= j < lo ==> lex_lt(#[trigger] s[j].name_view(), key@),
                forall|j: int| hi <= j < s.len() ==> lex_lt(key@, #[trigger] s[j].name_view()),
            decreases hi - lo,
        {
            let mid = lo + (hi - lo) / 2;
            let c = compare_bytes(self.stations[mid].name(), key);
            if c == 0 {
                return Ok(mid);
            } else if c < 0 {
                assert forall|j: int| 0 <= j < mid + 1 implies lex_lt(
                    #[trigger] s[j].name_view(),
                    key@,
                ) by {
                    if j < mid {
                        lemma_lex_transitive(s[j].name_view(), s[mid as int].name_view(), key@);
                    }
                }
                lo = mid + 1;
            } else {
                assert forall|j: int| mid <= j < s.len() implies lex_lt(
                    key@,
                    #[trigger] s[j].name_view(),
                ) by {
                    if j > mid {
                        lemma_lex_transitive(key@, s[mid as int].name_view(), s[j].name_view());
                    }
                }
                hi = mid;
            }
        }
        Err(lo)
    }

    /// Folds the value `t` into the statistics of `key`.
    pub fn record(&mut self, key: &[u8], t: i16)
        requires
            old(self).wf(),
            old(self).record_count() < usize::MAX,
            -999 <= t <= 999,
        ensures
            final(self).wf(),
            final(self)@ == add_agg(old(self)@, key@, single(t as int)),
            final(self).record_count() == old(self).record_count() + 1,
    {
        let ghost s = self.stations@;
        match self.locate(key) {
            Ok(i) => {
                proof {
                    lemma_to_map_at(s, i as int);
                }
                self.stations[i].add(t);
                proof {
                    Self::lemma_update_view(s, i as int, self.stations@[i as int]);
                    assert(self.stations@ =~= s.update(i as int, self.stations@[i as int]));
                }
            },
            Err(p) => {
                let st = ProcessedStation::new(copy_bytes(key), t);
                proof {
                    Self::lemma_insert_view(s, p as int, st);
                }
                self.stations.insert(p, st);
            },
        }
        self.records = self.records + 1;
    }

    /// Folds the statistics of `st` into those of its key; the record count
    /// already accounts for them.
    fn absorb_station(&mut self, st: &ProcessedStation)
        requires
            old(self).wf(),
            st.wf(),
            st.agg().count <= old(self).record_count(),
            old(self)@.contains_key(st.name_view()) ==> old(self)@[st.name_view()].count
                + st.agg().count <= old(self).record_count(),
        ensures
            final(self).wf(),
            final(self)@ == add_agg(old(self)@, st.name_view(), st.agg()),
            final(self).record_count() == old(self).record_count(),
    {
        let ghost s = self.stations@;
        match self.locate(st.name()) {
            Ok(i) => {
                proof {
                    lemma_to_map_at(s, i as int);
                }
                self.stations[i].absorb(st);
                proof {
                    Self::lemma_update_view(s, i as int, self.stations@[i as int]);
                    assert(self.stations@ =~= s.update(i as int, self.stations@[i as int]));
                }
            },
            Err(p) => {
                let copy = st.duplicate();
                proof {
                    Self::lemma_insert_view(s, p as int, copy);
                }
                self.stations.insert(p, copy);
            },
        }
    }

    /// Folds every entry of `other` into this table.
    pub fn absorb_table(&mut self, other: &StationTable)
        requires
            old(self).wf(),
            other.wf(),
            old(self).record_count() + other.record_count() <= usize::MAX,
        ensures
            final(self).wf(),
            final(self)@ == merge_maps(old(self)@, other@),
            final(self).record_count() == old(self).record_count() + other.record_count(),
    {
        let ghost m0 = self@;
        let ghost r0 = self.records;
        let ghost o = other.stations@;
        self.records = self.records + other.records;
        assert(merge_maps(m0, to_map(o.subrange(0, 0))) =~= m0);
        let mut j: usize = 0;
        while j < other.stations.len()
            invariant
                self.wf(),
                other.wf(),
                o == other.stations@,
                j <= o.len(),
                self.records == r0 + other.records,
                self@ == merge_maps(m0, to_map(o.subrange(0, j as int))),
                forall|k: Seq<u8>| #[trigger] m0.contains_key(k) ==> m0[k].count <= r0,
            decreases o.len() - j,
        {
            let ghost pre = o.subrange(0, j as int);
            proof {
                Self::lemma_insert_view(pre, j as int, o[j as int]);
                assert(pre.insert(j as int, o[j as int]) =~= o.subrange(0, j + 1));
                lemma_merge_add(m0, to_map(pre), o[j as int].name_view(), o[j as int].agg());
            }
            self.absorb_station(&other.stations[j]);
            j = j + 1;
        }
        assert(o.subrange(0, o.len() as int) =~= o);
    }

    pub proof fn lemma_insert_view(s: Seq<ProcessedStation>, p: int, x: ProcessedStation)
        requires
            names_sorted(s),
            0 <= p <= s.len(),
            forall|j: int| 0 <= j < p ==> lex_lt(#[trigger] s[j].name_view(), x.name_view()),
            forall|j: int| p <= j < s.len() ==> lex_lt(x.name_view(), #[trigger] s[j].name_view()),
        ensures
            names_sorted(s.insert(p, x)),
            to_map(s.insert(p, x)) == to_map(s).insert(x.name_view(), x.agg()),
            !to_map(s).contains_key(x.name_view()),
    {
        let t = s.insert(p, x);
        assert forall|i: int, j: int| 0 <= i < j < t.len() implies lex_lt(
            #[trigger] t[i].name_view(),
            #[trigger] t[j].name_view(),
        ) by {
            if i < p && j > p {
                lemma_lex_transitive(t[i].name_view(), x.name_view(), t[j].name_view());
            }
        }
        assert(!has_name(s, x.name_view())) by {
            if has_name(s, x.name_view()) {
                let j = choose|j: int| 0 <= j < s.len() && s[j].name_view() == x.name_view();
                lemma_lex_irreflexive(x.name_view());
            }
        }
        let m = to_map(s).insert(x.name_view(), x.agg());
        assert forall|k: Seq<u8>| #[trigger] has_name(t, k) <==> m.contains_key(k) by {
            if has_name(t, k) {
                let j = choose|j: int| 0 <= j < t.len() && t[j].name_view() == k;
                if j < p {
                    assert(s[j].name_view() == k);
                } else if j > p {
                    assert(s[j - 1].name_view() == k);
                }
            }
            if has_name(s, k) {
                let j = choose|j: int| 0 <= j < s.len() && s[j].name_view() == k;
                if j < p {
                    assert(t[j].name_view() == k);
                } else {
                    assert(t[j + 1].name_view() == k);
                }
            }
            if k == x.name_view() {
                assert(t[p].name_view() == k);
            }
        }
        assert forall|k: Seq<u8>| m.contains_key(k) implies to_map(t)[k] == m[k] by {
            assert(has_name(t, k));
            let j = choose|j: int| 0 <= j < t.len() && t[j].name_view() == k;
            lemma_to_map_at(t, j);
            if j < p {
                lemma_to_map_at(s, j);
            } else if j > p {
                lemma_to_map_at(s, j - 1);
            }
        }
        assert(to_map(t) =~= m);
    }

    proof fn lemma_update_view(s: Seq<ProcessedStation>, i: int, x: ProcessedStation)
        requires
            names_sorted(s),
            0 <= i < s.len(),
            x.name_view() == s[i].name_view(),
        ensures
            names_sorted(s.update(i, x)),
            to_map(s.update(i, x)) == to_map(s).insert(x.name_view(), x.agg()),
    {
        let t = s.update(i, x);
        assert forall|a: int, b: int| 0 <= a < b < t.len() implies lex_lt(
            #[trigger] t[a].name_view(),
            #[trigger] t[b].name_view(),
        ) by {
            assert(t[a].name_view() == s[a].name_view());
            assert(t[b].name_view() == s[b].name_view());
        }
        let m = to_map(s).insert(x.name_view(), x.agg());
        assert forall|k: Seq<u8>| #[trigger] has_name(t, k) <==> m.contains_key(k) by {
            if has_name(t, k) {
                let j = choose|j: int| 0 <= j < t.len() && t[j].name_view() == k;
                assert(s[j].name_view() == k);
            }
            if has_name(s, k) {
                let j = choose|j: int| 0 <= j < s.len() && s[j].name_view() == k;
                assert(t[j].name_view() == k);
            }
            if k == x.name_view() {
                assert(t[i].name_view() == k);
            }
        }
        assert forall|k: Seq<u8>| m.contains_key(k) implies to_map(t)[k] == m[k] by {
            assert(has_name(t, k));
            let j = choose|j: int| 0 <= j < t.len() && t[j].name_view() == k;
            lemma_to_map_at(t, j);
            if j != i {
                lemma_to_map_at(s, j);
                if k == x.name_view() {
                    lemma_names_unique(s, i, j);
                }
            }
        }
        assert(to_map(t) =~= m);
    }
}

} // verus!
