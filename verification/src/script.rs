//! Small helpers of the scripting layer: the nesting-depth stack the
//! structogram interpreter walks with, and the building blocks of scripted
//! behaviors.

use vstd::prelude::*;

verus! {

/// A stack of nesting depths: one counter per open block.
#[derive(Debug)]
pub struct DebthStack(pub Vec<usize>);

impl DebthStack {
    pub fn new() -> (r: DebthStack)
        ensures
            r.0@ == Seq::<usize>::empty(),
    {
        DebthStack(Vec::new())
    }

    /// Opens a block at depth zero.
    pub fn push(&mut self)
        ensures
            final(self).0@ == old(self).0@.push(0usize),
    {
        self.0.push(0);
    }

    /// Closes the innermost block, handing back its depth.
    pub fn pop(&mut self) -> (r: Option<usize>)
        ensures
            old(self).0@.len() == 0 ==> r is None && final(self).0@ == old(self).0@,
            old(self).0@.len() > 0 ==> r == Some(old(self).0@.last()) && final(self).0@ == old(
                self,
            ).0@.drop_last(),
    {
        let r = self.0.pop();
        proof {
            if old(self).0@.len() > 0 {
                assert(self.0@ =~= old(self).0@.drop_last());
            }
        }
        r
    }

    /// Advances every open block by one step.
    pub fn advance(&mut self)
        requires
            forall|i: int| 0 <= i < old(self).0@.len() ==> #[trigger] old(self).0@[i] < usize::MAX,
        ensures
            final(self).0@.len() == old(self).0@.len(),
            forall|i: int|
                0 <= i < final(self).0@.len() ==> #[trigger] final(self).0@[i] == old(self).0@[i]
                    + 1,
    {
        let n = self.0.len();
        let mut i: usize = 0;
        while i < n
            invariant
                i <= n,
                n == self.0@.len(),
                old(self).0@.len() == n,
                forall|q: int| 0 <= q < n ==> #[trigger] old(self).0@[q] < usize::MAX,
                forall|q: int| i <= q < n ==> self.0@[q] == old(self).0@[q],
                forall|q: int| 0 <= q < i ==> #[trigger] self.0@[q] == old(self).0@[q] + 1,
            decreases n - i,
        {
            let v = self.0[i];
            self.0[i] = v + 1;
            i += 1;
        }
    }
}

/// A scripted action: move the object named `a` toward the one named `b`.
#[derive(Clone)]
pub struct MoveAtoB {
    pub a: String,
    pub b: String,
}

impl MoveAtoB {
    pub fn new(a: String, b: String) -> (r: MoveAtoB)
        ensures
            r.a == a,
            r.b == b,
    {
        MoveAtoB { a, b }
    }
}

/// A scripted condition that holds for a fixed number of queries.
pub struct Iterations(pub usize);

impl Iterations {
    pub fn new(i: usize) -> (r: Iterations)
        ensures
            r.0 == i,
    {
        Iterations(i)
    }

    /// Consumes one iteration: holds while any are left.
    pub fn is_met(&mut self) -> (r: bool)
        ensures
            old(self).0 > 0 ==> r && final(self).0 == old(self).0 - 1,
            old(self).0 == 0 ==> !r && final(self).0 == 0,
    {
        if self.0 > 0 {
            self.0 = self.0 - 1;
            true
        } else {
            false
        }
    }
}

} // verus!
