//! The queue of model identifiers waiting to be processed, with set semantics.
use vstd::prelude::*;
use crate::ordered_map::ExactView;

verus! {

/// Whether `s` holds an element equal to `x`.
pub open spec fn holds_equal<G: View>(s: Seq<G>, x: G) -> bool {
    exists|i: int| 0 <= i < s.len() && #[trigger] s[i]@ == x@
}

/// A first-in first-out queue that holds each element at most once.
#[derive(Debug)]
pub struct QueuedSet<G> {
    queue: Vec<G>,
}

impl<G> View for QueuedSet<G> {
    type V = Seq<G>;

    closed spec fn view(&self) -> Seq<G> {
        self.queue@
    }
}

impl<G: ExactView> QueuedSet<G> {
    pub fn new() -> (r: QueuedSet<G>)
        ensures
            r@ == Seq::<G>::empty(),
    {
        QueuedSet { queue: Vec::new() }
    }

    /// Appends `change_iden` unless an equal element is waiting already; a
    /// waiting element keeps its place.
    pub fn enqueue(&mut self, change_iden: G)
        ensures
            final(self)@ == (if holds_equal(old(self)@, change_iden) {
                old(self)@
            } else {
                old(self)@.push(change_iden)
            }),
    {
        let mut i: usize = 0;
        while i < self.queue.len()
            invariant
                self@ == old(self)@,
                i <= self@.len(),
                forall|j: int| 0 <= j < i ==> #[trigger] self@[j]@ != change_iden@,
            decreases self@.len() - i,
        {
            if self.queue[i].view_eq(&change_iden) {
                assert(self@[i as int]@ == change_iden@);
                return;
            }
            i = i + 1;
        }
        self.queue.push(change_iden);
    }

    /// Removes and returns the element at the head, if any.
    pub fn dequeue(&mut self) -> (r: Option<G>)
        ensures
            old(self)@.len() == 0 ==> r is None && final(self)@ == old(self)@,
            old(self)@.len() > 0 ==> r == Some(old(self)@[0]) && final(self)@ == old(self)@.drop_first(),
    {
        if self.queue.len() > 0 {
            let r = self.queue.remove(0);
            assert(self@ =~= old(self)@.drop_first());
            Some(r)
        } else {
            None
        }
    }

    /// The element at the head, if any.
    pub fn peek(&self) -> (r: Option<&G>)
        ensures
            self@.len() == 0 ==> r is None,
            self@.len() > 0 ==> r == Some(&self@[0]),
    {
        if self.queue.len() > 0 {
            Some(&self.queue[0])
        } else {
            None
        }
    }
}

} // verus!
