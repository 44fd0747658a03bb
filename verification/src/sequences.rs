use vstd::prelude::*;

verus! {

/// The index of the first element of `s` that satisfies `pred`, if any does.
pub open spec fn first_index<A>(s: Seq<A>, pred: spec_fn(A) -> bool) -> Option<int>
    decreases s.len(),
{
    if s.len() == 0 {
        None
    } else {
        match first_index(s.drop_last(), pred) {
            Some(i) => Some(i),
            None => if pred(s.last()) {
                Some(s.len() - 1)
            } else {
                None
            },
        }
    }
}

/// `first_index` finds an element that satisfies the predicate with none
/// before it that does, and finds nothing only where no element does.
pub proof fn lemma_first_index<A>(s: Seq<A>, pred: spec_fn(A) -> bool)
    ensures
        match first_index(s, pred) {
            Some(i) => 0 <= i < s.len() && pred(s[i]) && forall|j: int| 0 <= j < i ==> !pred(s[j]),
            None => forall|j: int| 0 <= j < s.len() ==> !pred(s[j]),
        },
    decreases s.len(),
{
    if s.len() > 0 {
        lemma_first_index(s.drop_last(), pred);
        match first_index(s.drop_last(), pred) {
            Some(i) => {
                assert(s.drop_last()[i] == s[i]);
                assert forall|j: int| 0 <= j < i implies !pred(s[j]) by {
                    assert(s.drop_last()[j] == s[j]);
                }
            },
            None => {
                assert forall|j: int| 0 <= j < s.len() - 1 implies !pred(s[j]) by {
                    assert(s.drop_last()[j] == s[j]);
                }
            },
        }
    }
}

} // verus!
