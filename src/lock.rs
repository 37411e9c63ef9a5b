use vstd::prelude::*;

verus! {

/// Identity of whoever holds a lock (a task, a CPU, an interrupt context).
#[derive(Clone, Copy, Debug, PartialEq, Eq, Structural)]
pub struct PId(pub usize);

/// Why a borrow was refused.
#[derive(Clone, Copy, Debug, PartialEq, Eq, Structural)]
pub enum LockError {
    /// The lock is held by another owner, named here.
    UsedByOthers(PId),
}

/// Whether `pid` may take a lock whose current holder is `owner`:
/// a free lock, or one it already holds.
pub open spec fn can_borrow(owner: Option<PId>, pid: PId) -> bool {
    match owner {
        None => true,
        Some(o) => o == pid,
    }
}

/// Holder after `pid` tries to take a lock held by `owner`.
pub open spec fn owner_after_borrow(owner: Option<PId>, pid: PId) -> Option<PId> {
    if can_borrow(owner, pid) {
        Some(pid)
    } else {
        owner
    }
}

/// Holder after a guard of `pid` is handed back to a lock held by `owner`.
pub open spec fn owner_after_release(owner: Option<PId>, pid: PId) -> Option<PId> {
    if owner == Some(pid) {
        None
    } else {
        owner
    }
}

/// An exclusive cell around a driver instance, keyed by the identity of its holder.
pub struct Lock<T> {
    data: T,
    owner: Option<PId>,
}

/// Proof that `pid` holds the lock it came from; hand it back to `release`.
pub struct LockGuard {
    pid: PId,
}

impl LockGuard {
    pub closed spec fn spec_pid(&self) -> PId {
        self.pid
    }

    /// The owner that took the lock.
    pub fn pid(&self) -> (r: PId)
        ensures
            r == self.spec_pid(),
    {
        self.pid
    }
}

impl<T> Lock<T> {
    pub closed spec fn spec_owner(&self) -> Option<PId> {
        self.owner
    }

    pub closed spec fn spec_data(&self) -> T {
        self.data
    }

    /// A free lock around `data`.
    pub fn new(data: T) -> (r: Self)
        ensures
            r.spec_owner() is None,
            r.spec_data() == data,
    {
        Lock { data, owner: None }
    }

    /// Current holder, if any.
    pub fn owner(&self) -> (r: Option<PId>)
        ensures
            r == self.spec_owner(),
    {
        self.owner
    }

    /// Takes the lock for `pid` without waiting: succeeds on a free lock or one that
    /// `pid` already holds, and fails with the holder's identity otherwise.
    pub fn try_borrow(&mut self, pid: PId) -> (r: Result<LockGuard, LockError>)
        ensures
            r is Ok <==> can_borrow(old(self).spec_owner(), pid),
            final(self).spec_owner() == owner_after_borrow(old(self).spec_owner(), pid),
            final(self).spec_data() == old(self).spec_data(),
            r matches Ok(g) ==> g.spec_pid() == pid,
            r matches Err(e) ==> old(self).spec_owner() == Some(match e {
                LockError::UsedByOthers(o) => o,
            }),
    {
        match self.owner {
            Some(o) => {
                if o == pid {
                    Ok(LockGuard { pid })
                } else {
                    Err(LockError::UsedByOthers(o))
                }
            },
            None => {
                self.owner = Some(pid);
                Ok(LockGuard { pid })
            },
        }
    }

    /// Gives the lock back: a guard of the holder frees it, any other guard changes nothing.
    pub fn release(&mut self, guard: LockGuard)
        ensures
            final(self).spec_owner() == owner_after_release(old(self).spec_owner(), guard.spec_pid()),
            final(self).spec_data() == old(self).spec_data(),
    {
        if self.owner == Some(guard.pid) {
            self.owner = None;
        }
    }

    /// Exclusive access to the instance for the holder of `guard`.
    pub fn get_mut(&mut self, guard: &LockGuard) -> (r: &mut T)
        requires
            old(self).spec_owner() == Some(guard.spec_pid()),
        ensures
            *r == old(self).spec_data(),
            final(self).spec_owner() == old(self).spec_owner(),
            final(self).spec_data() == *final(r),
    {
        &mut self.data
    }

    /// Exclusive access to the instance whoever holds the lock, the holder's
    /// state untouched. Meant for interrupt context, whose caller knows that no
    /// borrower is using the instance meanwhile.
    pub fn force_use(&mut self) -> (r: &mut T)
        ensures
            *r == old(self).spec_data(),
            final(self).spec_owner() == old(self).spec_owner(),
            final(self).spec_data() == *final(r),
    {
        &mut self.data
    }

    /// Shared access to the instance.
    pub fn get(&self) -> (r: &T)
        ensures
            *r == self.spec_data(),
    {
        &self.data
    }
}

/// Once one owner has taken a lock, every other owner is refused until the guard is
/// handed back; after that, the other owner's borrow succeeds.
pub proof fn lemma_exclusive_owner(owner: Option<PId>, first: PId, second: PId)
    requires
        first != second,
        can_borrow(owner, first),
    ensures
        !can_borrow(owner_after_borrow(owner, first), second),
        owner_after_borrow(owner, first) == Some(first),
        can_borrow(owner_after_release(owner_after_borrow(owner, first), first), second),
{
}

} // verus!
