//! Plain facts of sequences.
use vstd::prelude::*;

verus! {

/// What stands in a sequence stands in its front or is its last item.
pub proof fn lemma_contains_last<A>(s: Seq<A>)
    requires
        s.len() > 0,
    ensures
        forall|a: A| #[trigger] s.contains(a) <==> s.drop_last().contains(a) || a == s.last(),
{
    let front = s.drop_last();
    assert(s[s.len() - 1] == s.last());
    assert forall|a: A| #[trigger] s.contains(a) <==> front.contains(a) || a == s.last() by {
        if front.contains(a) {
            let i = choose|i: int| 0 <= i < front.len() && front[i] == a;
            assert(s[i] == a);
        }
        if s.contains(a) {
            let i = choose|i: int| 0 <= i < s.len() && s[i] == a;
            if i < front.len() {
                assert(front[i] == a);
            }
        }
    }
}

} // verus!
