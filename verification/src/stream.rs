//! The coordinator of a query over a forest: what to do next, given what
//! has been found and what is still being looked up. The lookups themselves
//! are the caller's: it hands each reference that is dispatched to a worker
//! and hands back what the worker found.

use crate::tree::{Row, TreeRef};
use std::collections::VecDeque;
use vstd::prelude::*;

verus! {

/// The state of a query over a forest: the references still to be followed,
/// the records found and not yet surfaced, and how many lookups are under
/// way.
pub struct QState {
    pub refs: VecDeque<TreeRef>,
    pub results: VecDeque<Row>,
    pub active: usize,
}

/// What the coordinator does next.
pub enum QAction {
    /// Surface this record.
    Emit(Row),
    /// Wait for a lookup to come back.
    Await,
    /// Hand these references to the workers.
    Dispatch(Vec<TreeRef>),
    /// Nothing is left: close the channels.
    Done,
}

/// How many references are dispatched at once: one for each worker, as far
/// as there are references.
pub open spec fn batch(pending: int, nproc: int) -> int {
    if pending < nproc {
        pending
    } else {
        nproc
    }
}

/// A sequence turned over, without what was its last entry.
proof fn lemma_reverse_pop<T>(b: Seq<T>)
    requires
        b.len() > 0,
    ensures
        b.drop_last().reverse() == b.reverse().subrange(1, b.len() as int),
        b.reverse()[0] == b.last(),
{
    assert(b.drop_last().reverse() =~= b.reverse().subrange(1, b.len() as int));
}

impl QState {
    /// The state after the local query of the root: its records are to be
    /// surfaced and its references to be followed, in their order.
    pub fn new(rows: Vec<Row>, refs: Vec<TreeRef>) -> (s: Self)
        ensures
            s.results@ == rows@,
            s.refs@ == refs@,
            s.active == 0,
    {
        let mut s = QState { refs: VecDeque::new(), results: VecDeque::new(), active: 0 };
        s.extend(rows, refs);
        assert(Seq::<Row>::empty() + rows@ =~= rows@);
        assert(Seq::<TreeRef>::empty() + refs@ =~= refs@);
        s
    }

    /// Appends records and references behind those that wait.
    fn extend(&mut self, rows: Vec<Row>, refs: Vec<TreeRef>)
        ensures
            final(self).results@ == old(self).results@ + rows@,
            final(self).refs@ == old(self).refs@ + refs@,
            final(self).active == old(self).active,
    {
        let ghost r0 = self.results@;
        let ghost f0 = self.refs@;
        let ghost rows0 = rows@;
        let ghost refs0 = refs@;
        let mut rows = rows;
        let mut refs = refs;
        // each vector is turned over first, so that its entries are moved
        // out from the back in their order
        let mut back: Vec<Row> = Vec::new();
        while rows.len() > 0
            invariant
                rows@ + back@.reverse() == rows0,
            decreases rows@.len(),
        {
            let ghost a = rows@;
            let ghost b = back@;
            let x = rows.pop().unwrap();
            back.push(x);
            assert(back@.reverse() =~= seq![x] + b.reverse());
            assert(rows@ + back@.reverse() =~= a + b.reverse());
        }
        assert(back@.reverse() =~= rows0);
        assert(r0 + rows0.subrange(0, 0) =~= r0);
        let ghost mut i: int = 0;
        while back.len() > 0
            invariant
                0 <= i,
                i + back@.len() == rows0.len(),
                back@.reverse() == rows0.subrange(i, rows0.len() as int),
                self.results@ == r0 + rows0.subrange(0, i),
                self.refs@ == f0,
                self.active == old(self).active,
            decreases back@.len(),
        {
            let ghost b = back@;
            let x = back.pop().unwrap();
            proof {
                lemma_reverse_pop(b);
                assert(back@ =~= b.drop_last());
            }
            assert(b.reverse()[0] == x);
            assert(back@.reverse() =~= rows0.subrange(i + 1, rows0.len() as int));
            self.results.push_back(x);
            assert(self.results@ =~= r0 + rows0.subrange(0, i + 1));
            proof {
                i = i + 1;
            }
        }
        assert(rows0.subrange(0, rows0.len() as int) =~= rows0);
        let mut fback: Vec<TreeRef> = Vec::new();
        while refs.len() > 0
            invariant
                refs@ + fback@.reverse() == refs0,
            decreases refs@.len(),
        {
            let ghost a = refs@;
            let ghost b = fback@;
            let x = refs.pop().unwrap();
            fback.push(x);
            assert(fback@.reverse() =~= seq![x] + b.reverse());
            assert(refs@ + fback@.reverse() =~= a + b.reverse());
        }
        assert(fback@.reverse() =~= refs0);
        assert(f0 + refs0.subrange(0, 0) =~= f0);
        let ghost mut k: int = 0;
        while fback.len() > 0
            invariant
                0 <= k,
                k + fback@.len() == refs0.len(),
                fback@.reverse() == refs0.subrange(k, refs0.len() as int),
                self.refs@ == f0 + refs0.subrange(0, k),
                self.results@ == r0 + rows0,
                self.active == old(self).active,
            decreases fback@.len(),
        {
            let ghost b = fback@;
            let x = fback.pop().unwrap();
            proof {
                lemma_reverse_pop(b);
                assert(fback@ =~= b.drop_last());
            }
            assert(b.reverse()[0] == x);
            assert(fback@.reverse() =~= refs0.subrange(k + 1, refs0.len() as int));
            self.refs.push_back(x);
            assert(self.refs@ =~= f0 + refs0.subrange(0, k + 1));
            proof {
                k = k + 1;
            }
        }
        assert(refs0.subrange(0, refs0.len() as int) =~= refs0);
    }

    /// What to do next: surface the first record that waits; if none waits
    /// and lookups are under way, wait for one; if none is under way,
    /// dispatch the first references, one for each of the `nproc` workers as
    /// far as there are references; and if there are none, end.
    pub fn next(&mut self, nproc: usize) -> (a: QAction)
        requires
            nproc >= 1,
        ensures
            old(self).results@.len() > 0 ==> (a matches QAction::Emit(row) && row == old(self).results@[0]
                && final(self).results@ == old(self).results@.subrange(1, old(self).results@.len() as int)
                && final(self).refs@ == old(self).refs@ && final(self).active == old(self).active),
            old(self).results@.len() == 0 && old(self).active > 0 ==> a is Await && final(self).results@
                == old(self).results@ && final(self).refs@ == old(self).refs@ && final(self).active == old(
                self,
            ).active,
            old(self).results@.len() == 0 && old(self).active == 0 && old(self).refs@.len() > 0 ==> (a matches QAction::Dispatch(
                out,
            ) && {
                let n = batch(old(self).refs@.len() as int, nproc as int);
                &&& out@ == old(self).refs@.subrange(0, n)
                &&& final(self).refs@ == old(self).refs@.subrange(n, old(self).refs@.len() as int)
                &&& final(self).active == n
                &&& final(self).results@ == old(self).results@
            }),
            old(self).results@.len() == 0 && old(self).active == 0 && old(self).refs@.len() == 0 ==> a is Done
                && final(self).results@ == old(self).results@ && final(self).refs@ == old(self).refs@
                && final(self).active == 0,
    {
        match self.results.pop_front() {
            Some(row) => {
                return QAction::Emit(row);
            },
            None => {},
        }
        if self.active > 0 {
            return QAction::Await;
        }
        if self.refs.len() == 0 {
            return QAction::Done;
        }
        let ghost f0 = self.refs@;
        let mut out: Vec<TreeRef> = Vec::new();
        let mut i: usize = 0;
        assert(f0.subrange(0, f0.len() as int) =~= f0);
        while i < nproc && self.refs.len() > 0
            invariant
                i <= nproc,
                i <= f0.len(),
                out@ == f0.subrange(0, i as int),
                self.refs@ == f0.subrange(i as int, f0.len() as int),
                self.active == i,
                self.results@ == old(self).results@,
            decreases nproc - i,
        {
            let r = self.refs.pop_front().unwrap();
            self.active = self.active + 1;
            out.push(r);
            i += 1;
            assert(out@ =~= f0.subrange(0, i as int));
            assert(self.refs@ =~= f0.subrange(i as int, f0.len() as int));
        }
        QAction::Dispatch(out)
    }

    /// A lookup came back with what it found: its records are to be
    /// surfaced and its references to be followed, behind those that wait.
    pub fn on_result(&mut self, rows: Vec<Row>, refs: Vec<TreeRef>)
        requires
            old(self).active > 0,
        ensures
            final(self).active == old(self).active - 1,
            final(self).results@ == old(self).results@ + rows@,
            final(self).refs@ == old(self).refs@ + refs@,
    {
        self.active = self.active - 1;
        self.extend(rows, refs);
    }

    /// A lookup came back with an error, which the caller surfaces.
    pub fn on_error(&mut self)
        requires
            old(self).active > 0,
        ensures
            final(self).active == old(self).active - 1,
            final(self).results@ == old(self).results@,
            final(self).refs@ == old(self).refs@,
    {
        self.active = self.active - 1;
    }
}

} // verus!
