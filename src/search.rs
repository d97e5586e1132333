use vstd::prelude::*;

verus! {

/// `i` is the position of the first `needle` in `hay`.
pub open spec fn first_at(hay: Seq<u8>, needle: u8, i: int) -> bool {
    &&& 0 <= i < hay.len()
    &&& hay[i] == needle
    &&& forall|j: int| 0 <= j < i ==> hay[j] != needle
}

pub proof fn lemma_first_at_unique(hay: Seq<u8>, needle: u8, i: int, j: int)
    requires
        first_at(hay, needle, i),
        first_at(hay, needle, j),
    ensures
        i == j,
{
}

/// Relies on memchr::memchr: the index of the first occurrence of `needle`
/// in `hay`, or `None` when the byte does not occur.
#[verifier::external_body]
pub(crate) fn find_byte(needle: u8, hay: &[u8]) -> (r: Option<usize>)
    ensures
        r matches Some(i) ==> first_at(hay@, needle, i as int),
        r is None ==> forall|j: int| 0 <= j < hay@.len() ==> hay@[j] != needle,
{
    memchr::memchr(needle, hay)
}

} // verus!
