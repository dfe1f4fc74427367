use vstd::prelude::*;

use crate::generic::equiv::{EdgesIter, EdgesView, RecurMode};
use crate::Node;

verus! {

/// Specifies use of the normal call-stack for the recursions done to descend node edges.
///
/// Does depth-first preorder traversals.
pub struct CallStack;

impl View for CallStack {
    type V = ();

    open spec fn view(&self) -> () {
        ()
    }
}

impl<N: Node> RecurMode<N> for CallStack {
    open spec fn inv(&self) -> bool {
        true
    }

    open spec fn spec_immediate() -> bool {
        true
    }

    open spec fn spec_new() -> () {
        ()
    }

    open spec fn spec_save(v: (), e: EdgesView<N>) -> () {
        ()
    }

    open spec fn spec_next(v: ()) -> ((), Option<(N, N)>) {
        ((), None)
    }

    open spec fn spec_all_saved(v: (), p: spec_fn(EdgesView<N>) -> bool) -> bool {
        true
    }

    proof fn lemma_saved(v: (), e: EdgesView<N>, p: spec_fn(EdgesView<N>) -> bool) {
    }

    open spec fn spec_all_pending(v: (), p: spec_fn(N, N) -> bool) -> bool {
        true
    }

    proof fn lemma_pending(v: (), e: EdgesView<N>, p: spec_fn(N, N) -> bool) {
    }

    open spec fn spec_weight(v: (), w: spec_fn(N, N) -> nat) -> nat {
        0
    }

    proof fn lemma_weight(v: (), e: EdgesView<N>, w: spec_fn(N, N) -> nat) {
    }

    fn new() -> (r: Self) {
        CallStack
    }

    fn immediate() -> (r: bool) {
        true
    }

    /// Descendents are recurred on immediately, and so nothing is saved.
    fn save(&mut self, edges_iter: EdgesIter<N>) {
    }

    fn next(&mut self) -> (r: Option<(N, N)>) {
        None
    }

    /// The call-stack does not need to be reset, so this is a no-op for this type.
    fn reset(self) -> (r: Self) {
        self
    }
}

} // verus!
