use vstd::prelude::*;

verus! {

/// Byte-wise comparison of `a` and `b` from position `i` on: -1 when `a`
/// comes first, 1 when `b` does, 0 when the rest of both is equal.
pub open spec fn cmp_from(a: Seq<u8>, b: Seq<u8>, i: int) -> int
    decreases a.len() - i,
{
    if i >= a.len() && i >= b.len() {
        0
    } else if i >= a.len() {
        -1
    } else if i >= b.len() {
        1
    } else if a[i] < b[i] {
        -1
    } else if a[i] > b[i] {
        1
    } else {
        cmp_from(a, b, i + 1)
    }
}

/// `a` sorts strictly before `b` in byte-wise lexicographic order.
pub open spec fn lex_lt(a: Seq<u8>, b: Seq<u8>) -> bool {
    cmp_from(a, b, 0) == -1
}

pub proof fn lemma_cmp_antisymmetric(a: Seq<u8>, b: Seq<u8>, i: int)
    requires
        0 <= i,
    ensures
        cmp_from(a, b, i) == -cmp_from(b, a, i),
    decreases a.len() - i,
{
    if i < a.len() && i < b.len() && a[i] == b[i] {
        lemma_cmp_antisymmetric(a, b, i + 1);
    }
}

pub proof fn lemma_cmp_zero_equal(a: Seq<u8>, b: Seq<u8>, i: int)
    requires
        0 <= i <= a.len(),
        i <= b.len(),
        forall|j: int| 0 <= j < i ==> a[j] == b[j],
        cmp_from(a, b, i) == 0,
    ensures
        a == b,
    decreases a.len() - i,
{
    if i < a.len() && i < b.len() {
        lemma_cmp_zero_equal(a, b, i + 1);
    } else {
        assert(a =~= b);
    }
}

pub proof fn lemma_cmp_transitive(a: Seq<u8>, b: Seq<u8>, c: Seq<u8>, i: int)
    requires
        0 <= i,
        cmp_from(a, b, i) == -1,
        cmp_from(b, c, i) == -1,
    ensures
        cmp_from(a, c, i) == -1,
    decreases a.len() - i,
{
    if i < a.len() && i < b.len() && i < c.len() && a[i] == b[i] && b[i] == c[i] {
        lemma_cmp_transitive(a, b, c, i + 1);
    }
}

/// No sequence sorts before itself.
pub proof fn lemma_lex_irreflexive(a: Seq<u8>)
    ensures
        !lex_lt(a, a),
{
    lemma_cmp_antisymmetric(a, a, 0);
}

pub proof fn lemma_lex_transitive(a: Seq<u8>, b: Seq<u8>, c: Seq<u8>)
    requires
        lex_lt(a, b),
        lex_lt(b, c),
    ensures
        lex_lt(a, c),
{
    lemma_cmp_transitive(a, b, c, 0);
}

/// Compares two byte strings lexicographically: -1, 0 or 1.
pub fn compare_bytes(a: &[u8], b: &[u8]) -> (r: i8)
    ensures
        r as int == cmp_from(a@, b@, 0),
        -1 <= r <= 1,
        r == 0 <==> a@ == b@,
        r == -1 <==> lex_lt(a@, b@),
        r == 1 <==> lex_lt(b@, a@),
{
    proof {
        lemma_cmp_antisymmetric(a@, b@, 0);
        if a@ == b@ {
            lemma_lex_irreflexive(a@);
        }
    }
    let mut i: usize = 0;
    while i < a.len() && i < b.len()
        invariant
            i <= a.len(),
            i <= b.len(),
            cmp_from(a@, b@, 0) == cmp_from(a@, b@, i as int),
            cmp_from(b@, a@, 0) == -cmp_from(a@, b@, 0),
            a@ == b@ ==> cmp_from(a@, b@, 0) == 0,
            forall|j: int| 0 <= j < i ==> a@[j] == b@[j],
        decreases a.len() - i,
    {
        if a[i] < b[i] {
            return -1;
        }
        if a[i] > b[i] {
            return 1;
        }
        i = i + 1;
    }
    if i < a.len() {
        1
    } else if i < b.len() {
        -1
    } else {
        proof {
            lemma_cmp_zero_equal(a@, b@, i as int);
        }
        0
    }
}

} // verus!
