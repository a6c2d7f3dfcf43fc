use vstd::prelude::*;

verus! {

/// One registered destructor: the handle of the object it belongs to and an
/// opaque token standing for the function-argument pair to run.
#[derive(Clone, Copy, PartialEq, Eq, Structural, Debug)]
pub struct Destructor {
    /// The `__dso_handle` the registration carried.
    pub dso_handle: usize,
    /// Stands for the function and argument to call.
    pub token: u64,
}

/// Whether a finalize call for `handle` (with the optional mapped range of
/// the closing object) selects this entry: a null handle selects everything;
/// with a range, every entry whose handle falls inside it; otherwise exact
/// handle equality.
pub open spec fn spec_selected(e: Destructor, handle: usize, range: Option<(usize, usize)>) -> bool {
    if handle == 0 {
        true
    } else {
        match range {
            Some(r) => r.0 <= e.dso_handle < r.1,
            None => e.dso_handle == handle,
        }
    }
}

/// The process-wide queue of `__cxa_atexit` registrations.
pub struct DestructorQueue {
    /// The registrations, oldest first.
    pub entries: Vec<Destructor>,
}

impl DestructorQueue {
    /// An empty queue.
    pub fn new() -> (r: DestructorQueue)
        ensures
            r.entries@ =~= Seq::<Destructor>::empty(),
    {
        DestructorQueue { entries: Vec::new() }
    }

    /// Registers a destructor, appending it to the queue; returns zero as
    /// `__cxa_atexit` does.
    pub fn register_atexit(&mut self, dso_handle: usize, token: u64) -> (r: i32)
        ensures
            final(self).entries@ == old(self).entries@.push(Destructor { dso_handle, token }),
            r == 0,
    {
        self.entries.push(Destructor { dso_handle, token });
        0
    }

    /// Drains the entries a `__cxa_finalize(handle)` selects and returns them
    /// in reverse registration order — the order in which they are to run.
    /// Entries not selected stay queued, in their order.
    pub fn finalize(&mut self, handle: usize, range: Option<(usize, usize)>) -> (r: Vec<Destructor>)
        ensures
            final(self).entries@ == old(self).entries@.filter(
                |e: Destructor| !spec_selected(e, handle, range),
            ),
            r@ == old(self).entries@.filter(|e: Destructor| spec_selected(e, handle, range)).reverse(),
    {
        let ghost orig = self.entries@;
        let mut keep: Vec<Destructor> = Vec::new();
        let mut run: Vec<Destructor> = Vec::new();
        let mut i: usize = 0;
        proof {
            reveal(Seq::filter);
            assert(orig.take(0int) =~= Seq::<Destructor>::empty());
            assert(orig.take(0int).filter(|e: Destructor| !spec_selected(e, handle, range)) =~= Seq::<
                Destructor,
            >::empty());
            assert(orig.take(0int).filter(|e: Destructor| spec_selected(e, handle, range)) =~= Seq::<
                Destructor,
            >::empty());
        }
        while i < self.entries.len()
            invariant
                i <= self.entries@.len(),
                self.entries@ == orig,
                keep@ == orig.take(i as int).filter(|e: Destructor| !spec_selected(e, handle, range)),
                run@ == orig.take(i as int).filter(|e: Destructor| spec_selected(e, handle, range)),
            decreases orig.len() - i,
        {
            let e = self.entries[i];
            let selected = if handle == 0 {
                true
            } else {
                match range {
                    Some(rg) => rg.0 <= e.dso_handle && e.dso_handle < rg.1,
                    None => e.dso_handle == handle,
                }
            };
            proof {
                reveal(Seq::filter);
                assert(orig.take(i + 1).drop_last() =~= orig.take(i as int));
                assert(orig.take(i + 1).last() == orig[i as int]);
                assert(selected == spec_selected(orig[i as int], handle, range));
            }
            if selected {
                run.push(e);
            } else {
                keep.push(e);
            }
            i = i + 1;
        }
        proof {
            reveal(Seq::filter);
            assert(orig.take(orig.len() as int) =~= orig);
        }
        self.entries = keep;

        // run order is the reverse of registration order
        let mut out: Vec<Destructor> = Vec::new();
        let mut j: usize = run.len();
        while j > 0
            invariant
                j <= run@.len(),
                out@.len() == run@.len() - j,
                forall|t: int| 0 <= t < out@.len() ==> out@[t] == run@[run@.len() - 1 - t],
            decreases j,
        {
            out.push(run[j - 1]);
            j = j - 1;
        }
        proof {
            assert(out@ =~= run@.reverse());
        }
        out
    }
}

} // verus!
