use std::collections::BTreeMap;
use std::marker::PhantomData;
use vstd::prelude::*;
use vstd::std_specs::cmp::OrdSpec;
use vstd::std_specs::iter::IteratorSpec;

use crate::descriptor::{Descriptor, DescriptorView, DeviceId};
use crate::lock::{can_borrow, Lock, LockError, LockGuard, PId};

verus! {

broadcast use vstd::std_specs::btree::group_btree_axioms, vstd::laws_cmp::group_laws_cmp;

/// A driver instance behind its owner-tracked lock, with the descriptor it was found under.
pub struct Device<T> {
    pub descriptor: Descriptor,
    pub driver: Lock<T>,
}

/// A borrow of a device by one owner, carrying the device's descriptor.
pub struct DeviceGuard {
    pub descriptor: Descriptor,
    pub lock: LockGuard,
}

/// A reference to a device by identity, which does not keep it alive: it is
/// resolved against the container that stores the device.
pub struct DeviceWeak<T> {
    pub descriptor: Descriptor,
    pub id: DeviceId,
    pub kind: PhantomData<T>,
}

impl DeviceGuard {
    pub closed spec fn spec_pid(&self) -> PId {
        self.lock.spec_pid()
    }

    /// The owner that holds the device.
    pub fn pid(&self) -> (r: PId)
        ensures
            r == self.spec_pid(),
    {
        self.lock.pid()
    }
}

impl<T> Device<T> {
    pub closed spec fn spec_owner(&self) -> Option<PId> {
        self.driver.spec_owner()
    }

    pub closed spec fn spec_driver(&self) -> T {
        self.driver.spec_data()
    }

    /// A free device around `driver`.
    pub fn new(descriptor: Descriptor, driver: T) -> (r: Self)
        ensures
            r.descriptor == descriptor,
            r.spec_owner() is None,
            r.spec_driver() == driver,
    {
        Device { descriptor, driver: Lock::new(driver) }
    }

    /// Current holder, if any.
    pub fn owner(&self) -> (r: Option<PId>)
        ensures
            r == self.spec_owner(),
    {
        self.driver.owner()
    }

    /// Takes the device for `pid` without waiting; fails while another owner holds it.
    pub fn try_borrow_by(&mut self, pid: PId) -> (r: Result<DeviceGuard, LockError>)
        ensures
            r is Ok <==> can_borrow(old(self).spec_owner(), pid),
            final(self).spec_owner() == crate::lock::owner_after_borrow(old(self).spec_owner(), pid),
            final(self).descriptor == old(self).descriptor,
            final(self).spec_driver() == old(self).spec_driver(),
            r matches Ok(g) ==> g.spec_pid() == pid && g.descriptor@ == old(self).descriptor@,
            r matches Err(LockError::UsedByOthers(o)) ==> old(self).spec_owner() == Some(o),
    {
        let g = self.driver.try_borrow(pid)?;
        Ok(DeviceGuard { descriptor: self.descriptor.duplicate(), lock: g })
    }

    /// Takes the device for `pid`, retrying until it is free. A holder other than `pid`
    /// can only let go by handing its guard back to this same device, which cannot
    /// happen while the device is borrowed here; so the call is only made where the
    /// device is free or already held by `pid`, and the first try then succeeds.
    pub fn spin_try_borrow_by(&mut self, pid: PId) -> (r: DeviceGuard)
        requires
            can_borrow(old(self).spec_owner(), pid),
        ensures
            final(self).spec_owner() == Some(pid),
            final(self).descriptor == old(self).descriptor,
            final(self).spec_driver() == old(self).spec_driver(),
            r.spec_pid() == pid,
            r.descriptor@ == old(self).descriptor@,
    {
        loop
            invariant
                self.descriptor == old(self).descriptor,
                self.spec_driver() == old(self).spec_driver(),
                self.spec_owner() == old(self).spec_owner(),
                can_borrow(self.spec_owner(), pid),
            decreases 1int,
        {
            match self.try_borrow_by(pid) {
                Ok(g) => {
                    return g;
                },
                Err(_) => {},
            }
        }
    }

    /// Hands a guard back; a guard of the holder frees the device.
    pub fn release(&mut self, guard: DeviceGuard)
        ensures
            final(self).spec_owner() == crate::lock::owner_after_release(
                old(self).spec_owner(),
                guard.spec_pid(),
            ),
            final(self).descriptor == old(self).descriptor,
            final(self).spec_driver() == old(self).spec_driver(),
    {
        self.driver.release(guard.lock);
    }

    /// Exclusive access to the driver instance for the holder of `guard`.
    pub fn driver_mut(&mut self, guard: &DeviceGuard) -> (r: &mut T)
        requires
            old(self).spec_owner() == Some(guard.spec_pid()),
        ensures
            *r == old(self).spec_driver(),
            final(self).spec_owner() == old(self).spec_owner(),
            final(self).descriptor == old(self).descriptor,
            final(self).spec_driver() == *final(r),
    {
        self.driver.get_mut(&guard.lock)
    }

    /// Exclusive access to the driver instance whoever holds it, for interrupt
    /// context: the caller vouches that no borrower uses the instance meanwhile.
    pub fn force_use(&mut self) -> (r: &mut T)
        ensures
            *r == old(self).spec_driver(),
            final(self).spec_owner() == old(self).spec_owner(),
            final(self).descriptor == old(self).descriptor,
            final(self).spec_driver() == *final(r),
    {
        self.driver.force_use()
    }

    /// Shared access to the driver instance.
    pub fn driver(&self) -> (r: &T)
        ensures
            *r == self.spec_driver(),
    {
        self.driver.get()
    }

    /// A reference to this device by identity, with a copy of its descriptor.
    pub fn weak(&self) -> (r: DeviceWeak<T>)
        ensures
            r.descriptor@ == self.descriptor@,
            r.spec_id() == self.descriptor.device_id,
    {
        DeviceWeak { descriptor: self.descriptor.duplicate(), id: self.descriptor.device_id, kind: PhantomData }
    }
}

impl<T> DeviceWeak<T> {
    pub closed spec fn spec_id(&self) -> DeviceId {
        self.id
    }

    /// The identity this handle refers to.
    pub fn id(&self) -> (r: DeviceId)
        ensures
            r == self.spec_id(),
    {
        self.id
    }

    /// The device, while `container` still stores it.
    pub fn upgrade<'a>(&self, container: &'a Container<T>) -> (r: Option<&'a Device<T>>)
        ensures
            r is Some <==> container.spec_map().contains_key(self.spec_id().0),
            r matches Some(d) ==> *d == container.spec_map()[self.spec_id().0],
    {
        container.data.get(&self.id.0)
    }
}

/// Relies on std's BTreeMap::get_mut: a mutable reference to the value stored
/// under `k`, writes through which land in the map.
#[verifier::external_body]
fn map_get_mut<'a, V>(m: &'a mut BTreeMap<u64, V>, k: u64) -> (r: Option<&'a mut V>)
    ensures
        r is Some <==> old(m)@.contains_key(k),
        r matches Some(v) ==> *v == old(m)@[k] && final(m)@ == old(m)@.insert(k, *final(v)),
        r is None ==> final(m)@ == old(m)@,
{
    m.get_mut(&k)
}

/// All devices of one driver class, by identity.
pub struct Container<T> {
    data: BTreeMap<u64, Device<T>>,
}

impl<T> Container<T> {
    pub closed spec fn spec_map(&self) -> Map<u64, Device<T>> {
        self.data@
    }

    /// Every device is stored under its own identity.
    pub open spec fn wf(&self) -> bool {
        forall|k: u64| #[trigger] self.spec_map().contains_key(k)
            ==> self.spec_map()[k].descriptor.device_id.0 == k
    }

    /// An empty container.
    pub fn new() -> (r: Self)
        ensures
            r.spec_map() == Map::<u64, Device<T>>::empty(),
            r.wf(),
    {
        Container { data: BTreeMap::new() }
    }

    /// Stores `dev` under its identity; a device stored earlier under the same identity is replaced.
    pub fn insert(&mut self, dev: Device<T>)
        ensures
            old(self).wf() ==> final(self).wf(),
            final(self).spec_map() == old(self).spec_map().insert(dev.descriptor.device_id.0, dev),
    {
        let k = dev.descriptor.device_id.0;
        self.data.insert(k, dev);
    }

    /// A weak handle to the device stored under `id`, or `None` when there is none.
    pub fn get(&self, id: DeviceId) -> (r: Option<DeviceWeak<T>>)
        ensures
            r is Some <==> self.spec_map().contains_key(id.0),
            r matches Some(w) ==> w.spec_id() == id && w.descriptor@
                == self.spec_map()[id.0].descriptor@,
    {
        match self.data.get(&id.0) {
            Some(d) => Some(DeviceWeak { descriptor: d.descriptor.duplicate(), id, kind: PhantomData }),
            None => None,
        }
    }

    /// The device stored under `id`, for borrowing, releasing or forced use.
    pub fn get_mut(&mut self, id: DeviceId) -> (r: Option<&mut Device<T>>)
        ensures
            r is Some <==> old(self).spec_map().contains_key(id.0),
            r matches Some(d) ==> *d == old(self).spec_map()[id.0]
                && final(self).spec_map() == old(self).spec_map().insert(id.0, *final(d)),
            r is None ==> final(self).spec_map() == old(self).spec_map(),
    {
        map_get_mut(&mut self.data, id.0)
    }

    /// A weak handle to every stored device, in increasing order of identity.
    pub fn all(&self) -> (r: Vec<(DeviceId, DeviceWeak<T>)>)
        ensures
            self.spec_map().dom().finite(),
            r@.len() == self.spec_map().dom().len(),
            forall|k: u64| #[trigger] self.spec_map().contains_key(k) ==> exists|i: int|
                0 <= i < r@.len() && r@[i].0.0 == k,
            forall|i: int|
                0 <= i < r@.len() ==> {
                    &&& self.spec_map().contains_key(#[trigger] r@[i].0.0)
                    &&& r@[i].1.spec_id() == r@[i].0
                    &&& r@[i].1.descriptor@ == self.spec_map()[r@[i].0.0].descriptor@
                },
            forall|i: int, j: int| 0 <= i < j < r@.len() ==> r@[i].0.0 < r@[j].0.0,
    {
        let mut r: Vec<(DeviceId, DeviceWeak<T>)> = Vec::new();
        proof {
            assert(vstd::laws_cmp::obeys_cmp::<u64>());
            assert(vstd::std_specs::btree::key_obeys_cmp_spec::<u64>());
        }
        let iter = self.data.iter();
        let ghost items = iter.remaining();
        proof {
            let keys = items.map_values(|kv: (&u64, &Device<T>)| *kv.0);
            assert(vstd::std_specs::btree::increasing_seq(keys));
            assert forall|i: int, j: int| 0 <= i < j < items.len() implies *items[i].0 < *items[j].0 by {
                assert(keys[i] == *items[i].0);
                assert(keys[j] == *items[j].0);
                assert(keys[i].cmp_spec(&keys[j]) is Less);
            }
        }
        for kv in it: iter
            invariant
                it.seq() == items,
                forall|i: int, j: int| 0 <= i < j < items.len() ==> *items[i].0 < *items[j].0,
                r@.len() == it.index(),
                forall|i: int|
                    0 <= i < r@.len() ==> {
                        &&& r@[i].0.0 == *it.seq()[i].0
                        &&& r@[i].1.spec_id() == r@[i].0
                        &&& r@[i].1.descriptor@ == it.seq()[i].1.descriptor@
                    },
        {
            let (k, d) = kv;
            let id = DeviceId(*k);
            r.push((id, DeviceWeak { descriptor: d.descriptor.duplicate(), id, kind: PhantomData }));
        }
        r
    }
}


impl<T> Default for Container<T> {
    fn default() -> (r: Self)
        ensures
            r.spec_map() == Map::<u64, Device<T>>::empty(),
            r.wf(),
    {
        Container::new()
    }
}

/// After a device is inserted, its identity is found, so a weak handle to it upgrades;
/// an identity that was never inserted stays absent.
pub proof fn lemma_insert_then_get<T>(c: Container<T>, dev: Device<T>, other: u64)
    requires
        !c.spec_map().contains_key(other),
        other != dev.descriptor.device_id.0,
    ensures
        c.spec_map().insert(dev.descriptor.device_id.0, dev).contains_key(dev.descriptor.device_id.0),
        !c.spec_map().insert(dev.descriptor.device_id.0, dev).contains_key(other),
{
}

/// The descriptor a device was created with is the one that the container reports for
/// it after insertion: name, identity, interrupt parent and interrupts alike.
pub proof fn lemma_descriptor_round_trip<T>(c: Container<T>, dev: Device<T>)
    ensures
        c.spec_map().insert(dev.descriptor.device_id.0, dev)[dev.descriptor.device_id.0].descriptor@
            == dev.descriptor@,
{
}

} // verus!
