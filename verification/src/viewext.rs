//! Small bridges between a `Vec`'s shallow view and its deep view.

use vstd::prelude::*;

verus! {

/// Pushing one element pushes its deep view.
pub proof fn lemma_deep_view_push<T: DeepView>(pre: Vec<T>, post: Vec<T>, x: T)
    requires
        post@ == pre@.push(x),
    ensures
        post.deep_view() == pre.deep_view().push(x.deep_view()),
{
    assert forall|i: int| 0 <= i < post.deep_view().len() implies post.deep_view()[i]
        == pre.deep_view().push(x.deep_view())[i] by {
        if i < pre@.len() {
            assert(post@[i] == pre@[i]);
        } else {
            assert(post@[i] == x);
        }
    }
    assert(post.deep_view() =~= pre.deep_view().push(x.deep_view()));
}

/// Names one element of a sequence, to guide quantifier instantiation in
/// proofs about a vector shrunk from the front.
pub open spec fn seq_at<T>(s: Seq<T>, i: int) -> T {
    s[i]
}

} // verus!
