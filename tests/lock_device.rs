use rdrive::descriptor::{Descriptor, DeviceId, IrqConfig, Trigger};
use rdrive::device::{Container, Device};
use rdrive::lock::{Lock, LockError, PId};

fn descriptor(id: u64, name: &str) -> Descriptor {
    Descriptor {
        name: name.to_string(),
        device_id: DeviceId(id),
        irq_parent: Some(DeviceId(7)),
        irqs: vec![IrqConfig { irq: 33, trigger: Trigger::LevelHigh, is_private: false }],
    }
}

#[test]
fn other_owner_is_refused_until_release() {
    let mut lock = Lock::new(5u32);
    let g = lock.try_borrow(PId(1)).unwrap();
    assert_eq!(g.pid(), PId(1));
    assert_eq!(lock.try_borrow(PId(2)).err(), Some(LockError::UsedByOthers(PId(1))));
    assert_eq!(lock.owner(), Some(PId(1)));
    lock.release(g);
    assert_eq!(lock.owner(), None);
    let g2 = lock.try_borrow(PId(2)).unwrap();
    assert_eq!(g2.pid(), PId(2));
    assert_eq!(*lock.get(), 5);
}

#[test]
fn same_owner_borrows_again() {
    let mut lock = Lock::new(0u8);
    let _g = lock.try_borrow(PId(3)).unwrap();
    assert!(lock.try_borrow(PId(3)).is_ok());
    assert_eq!(lock.owner(), Some(PId(3)));
}

#[test]
fn release_by_non_holder_changes_nothing() {
    let mut lock = Lock::new(0u8);
    let g1 = lock.try_borrow(PId(1)).unwrap();
    let mut other = Lock::new(0u8);
    let g2 = other.try_borrow(PId(2)).unwrap();
    lock.release(g2);
    assert_eq!(lock.owner(), Some(PId(1)));
    lock.release(g1);
    assert_eq!(lock.owner(), None);
}

#[test]
fn device_borrow_carries_descriptor() {
    let mut dev = Device::new(descriptor(4, "uart"), 10u32);
    let g = dev.try_borrow_by(PId(1)).unwrap();
    assert_eq!(g.descriptor.name, "uart");
    assert_eq!(g.descriptor.device_id, DeviceId(4));
    assert!(matches!(dev.try_borrow_by(PId(2)), Err(LockError::UsedByOthers(PId(1)))));
    dev.release(g);
    assert_eq!(dev.owner(), None);
    let g = dev.spin_try_borrow_by(PId(2));
    assert_eq!(g.pid(), PId(2));
    assert_eq!(dev.owner(), Some(PId(2)));
    assert_eq!(*dev.driver(), 10);
}

#[test]
fn weak_upgrades_only_while_stored() {
    let dev = Device::new(descriptor(9, "timer"), 1u8);
    let w = dev.weak();
    assert_eq!(w.id(), DeviceId(9));
    let empty: Container<u8> = Container::new();
    assert!(w.upgrade(&empty).is_none());
    let mut c = Container::new();
    c.insert(dev);
    let d = w.upgrade(&c).unwrap();
    assert_eq!(d.descriptor.device_id, DeviceId(9));
    assert_eq!(*d.driver(), 1);
}

#[test]
fn container_get_and_absence() {
    let mut c = Container::new();
    c.insert(Device::new(descriptor(2, "a"), 20u32));
    let w = c.get(DeviceId(2)).unwrap();
    assert!(w.upgrade(&c).is_some());
    assert_eq!(w.descriptor.name, "a");
    assert!(c.get(DeviceId(3)).is_none());
}

#[test]
fn container_last_insert_wins() {
    let mut c = Container::new();
    c.insert(Device::new(descriptor(2, "first"), 1u32));
    c.insert(Device::new(descriptor(2, "second"), 2u32));
    let w = c.get(DeviceId(2)).unwrap();
    assert_eq!(w.descriptor.name, "second");
    assert_eq!(*w.upgrade(&c).unwrap().driver(), 2);
    assert_eq!(c.all().len(), 1);
}

#[test]
fn container_all_in_identity_order() {
    let mut c = Container::new();
    c.insert(Device::new(descriptor(8, "c"), 0u32));
    c.insert(Device::new(descriptor(1, "a"), 0u32));
    c.insert(Device::new(descriptor(5, "b"), 0u32));
    let all = c.all();
    let ids: Vec<u64> = all.iter().map(|(i, _)| i.0).collect();
    assert_eq!(ids, vec![1, 5, 8]);
    let names: Vec<String> = all.iter().map(|(_, w)| w.descriptor.name.clone()).collect();
    assert_eq!(names, vec!["a".to_string(), "b".to_string(), "c".to_string()]);
    assert_eq!(all[1].1.id(), DeviceId(5));
}

#[test]
fn duplicate_keeps_fields() {
    let d = descriptor(3, "gpio");
    let e = d.duplicate();
    assert_eq!(e.name, "gpio");
    assert_eq!(e.device_id, DeviceId(3));
    assert_eq!(e.irq_parent, Some(DeviceId(7)));
    assert_eq!(e.irqs, d.irqs);
}

#[test]
fn holder_writes_through_guard() {
    let mut dev = Device::new(descriptor(1, "rtc"), 0u32);
    let g = dev.try_borrow_by(PId(4)).unwrap();
    *dev.driver_mut(&g) = 42;
    assert_eq!(*dev.driver(), 42);
    assert_eq!(dev.owner(), Some(PId(4)));
    dev.release(g);
    assert_eq!(dev.owner(), None);
}

#[test]
fn force_use_ignores_holder() {
    let mut dev = Device::new(descriptor(1, "rtc"), 1u32);
    let _g = dev.try_borrow_by(PId(4)).unwrap();
    *dev.force_use() += 1;
    assert_eq!(*dev.driver(), 2);
    assert_eq!(dev.owner(), Some(PId(4)));
    let mut lock = Lock::new(7u8);
    *lock.force_use() = 9;
    assert_eq!(*lock.get(), 9);
    assert_eq!(lock.owner(), None);
}

#[test]
fn default_container_is_empty() {
    let c: Container<u8> = Container::default();
    assert!(c.all().is_empty());
    assert!(c.get(DeviceId(0)).is_none());
}

#[test]
fn stored_device_is_borrowed_through_container() {
    let mut c = Container::new();
    c.insert(Device::new(descriptor(6, "spi"), 0u32));
    let w = c.get(DeviceId(6)).unwrap();
    let g = c.get_mut(w.id()).unwrap().try_borrow_by(PId(1)).unwrap();
    assert!(c.get_mut(DeviceId(6)).unwrap().try_borrow_by(PId(2)).is_err());
    *c.get_mut(DeviceId(6)).unwrap().driver_mut(&g) = 11;
    assert_eq!(*w.upgrade(&c).unwrap().driver(), 11);
    c.get_mut(DeviceId(6)).unwrap().release(g);
    assert!(c.get_mut(DeviceId(6)).unwrap().try_borrow_by(PId(2)).is_ok());
    assert!(c.get_mut(DeviceId(7)).is_none());
}

#[test]
fn all_lists_every_stored_identity() {
    let mut c = Container::new();
    for id in [4u64, 2, 9, 2] {
        c.insert(Device::new(descriptor(id, "x"), id as u32));
    }
    let ids: Vec<DeviceId> = c.all().iter().map(|(i, _)| *i).collect();
    assert_eq!(ids, vec![DeviceId(2), DeviceId(4), DeviceId(9)]);
}
