//! The first position in a sequence at which a predicate holds.

use vstd::prelude::*;

verus! {

/// The number of items of `s` before the first one of which `pred` holds:
/// the position of that item, or the length of `s` where there is none.
pub open spec fn first_where<T>(s: Seq<T>, pred: spec_fn(T) -> bool) -> nat
    decreases s.len(),
{
    if s.len() == 0 || pred(s[0]) {
        0
    } else {
        1 + first_where(s.drop_first(), pred)
    }
}

/// `first_where` is the least position at which the predicate holds.
pub proof fn lemma_first_where<T>(s: Seq<T>, pred: spec_fn(T) -> bool)
    ensures
        first_where(s, pred) <= s.len(),
        forall|i: int| 0 <= i < first_where(s, pred) ==> !pred(#[trigger] s[i]),
        first_where(s, pred) < s.len() ==> pred(s[first_where(s, pred) as int]),
    decreases s.len(),
{
    if s.len() == 0 || pred(s[0]) {
    } else {
        let rest = s.drop_first();
        lemma_first_where(rest, pred);
        assert forall|i: int| 0 <= i < first_where(s, pred) implies !pred(#[trigger] s[i]) by {
            if i > 0 {
                assert(s[i] == rest[i - 1]);
            }
        }
        if first_where(s, pred) < s.len() {
            assert(s[first_where(s, pred) as int] == rest[first_where(rest, pred) as int]);
        }
    }
}

/// A position with no match before it, which holds one or is the end of the
/// sequence, is `first_where`.
pub proof fn lemma_first_where_is<T>(s: Seq<T>, pred: spec_fn(T) -> bool, at: int)
    requires
        0 <= at <= s.len(),
        forall|i: int| 0 <= i < at ==> !pred(#[trigger] s[i]),
        at < s.len() ==> pred(s[at]),
    ensures
        first_where(s, pred) == at,
{
    lemma_first_where(s, pred);
}

} // verus!
