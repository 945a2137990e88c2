//! All-or-nothing creation of several destinations.
//!
//! Destinations are created in the order in which they were asked for, and
//! none may exist before. When one cannot be created, those that this batch
//! created before it are removed again, and nothing else is touched.

use vstd::prelude::*;

verus! {

/// The record of one batch: how many destinations were asked for, and how
/// many of them, counted from the first, this batch has created.
pub struct CreationBatch {
    requested: usize,
    created: usize,
}

impl CreationBatch {
    /// The number of destinations asked for.
    pub closed spec fn requested(&self) -> nat {
        self.requested as nat
    }

    /// The number of destinations created so far.
    pub closed spec fn created(&self) -> nat {
        self.created as nat
    }

    /// No more was created than was asked for.
    #[verifier::type_invariant]
    spec fn well_formed(&self) -> bool {
        self.created <= self.requested
    }

    /// A batch of `requested` destinations, none of them created yet.
    pub fn new(requested: usize) -> (b: CreationBatch)
        ensures
            b.requested() == requested,
            b.created() == 0,
    {
        CreationBatch { requested, created: 0 }
    }

    /// The destination to create next, or nothing where all are created.
    pub fn pending(&self) -> (k: Option<usize>)
        ensures
            k == if self.created() < self.requested() {
                Some(self.created() as usize)
            } else {
                None
            },
    {
        proof {
            use_type_invariant(self);
        }
        if self.created < self.requested {
            Some(self.created)
        } else {
            None
        }
    }

    /// Notes that the next destination was created. Says whether there was
    /// one left to create; where there was none, nothing changes.
    pub fn record_created(&mut self) -> (noted: bool)
        ensures
            final(self).requested() == old(self).requested(),
            noted == (old(self).created() < old(self).requested()),
            final(self).created() == if noted {
                old(self).created() + 1
            } else {
                old(self).created()
            },
    {
        proof {
            use_type_invariant(&*self);
        }
        if self.created < self.requested {
            self.created = self.created + 1;
            true
        } else {
            false
        }
    }

    /// The destinations to remove when the next one cannot be created:
    /// those created so far, in the order of their creation. The one that
    /// could not be created is not among them, nor is any after it.
    pub fn rollback(&self) -> (doomed: Vec<usize>)
        ensures
            doomed@ == Seq::new(self.created(), |i: int| i as usize),
    {
        let mut doomed: Vec<usize> = Vec::new();
        let mut i: usize = 0;
        while i < self.created
            invariant
                i <= self.created,
                doomed@ == Seq::new(i as nat, |j: int| j as usize),
            decreases self.created - i,
        {
            doomed.push(i);
            assert(doomed@ =~= Seq::new((i + 1) as nat, |j: int| j as usize));
            i += 1;
        }
        doomed
    }
}

} // verus!
