use vstd::prelude::*;

verus! {

/// Identity of a discovered device, handed out once and never reused.
#[derive(Clone, Copy, Debug, PartialEq, Eq, Structural, PartialOrd, Ord, Hash)]
pub struct DeviceId(pub u64);

/// How an interrupt line fires.
#[derive(Clone, Copy, Debug, PartialEq, Eq, Structural)]
pub enum Trigger {
    EdgeBoth,
    EdgeRising,
    EdgeFailling,
    LevelHigh,
    LevelLow,
}

/// One resolved interrupt: its number, its trigger, and whether it is private to a CPU.
#[derive(Clone, Copy, Debug, PartialEq, Eq, Structural)]
pub struct IrqConfig {
    pub irq: usize,
    pub trigger: Trigger,
    pub is_private: bool,
}

/// What a device is known by: its driver's name, its identity, the interrupt
/// controller it hangs off, and its resolved interrupts.
#[derive(Debug)]
pub struct Descriptor {
    pub name: String,
    pub device_id: DeviceId,
    pub irq_parent: Option<DeviceId>,
    pub irqs: Vec<IrqConfig>,
}

/// The plain content of a descriptor.
pub struct DescriptorView {
    pub name: Seq<char>,
    pub device_id: DeviceId,
    pub irq_parent: Option<DeviceId>,
    pub irqs: Seq<IrqConfig>,
}

impl View for Descriptor {
    type V = DescriptorView;

    open spec fn view(&self) -> DescriptorView {
        DescriptorView {
            name: self.name@,
            device_id: self.device_id,
            irq_parent: self.irq_parent,
            irqs: self.irqs@,
        }
    }
}

/// A copy of a list of interrupts.
pub fn copy_irqs(irqs: &Vec<IrqConfig>) -> (r: Vec<IrqConfig>)
    ensures
        r@ == irqs@,
{
    let mut r: Vec<IrqConfig> = Vec::new();
    let mut i: usize = 0;
    while i < irqs.len()
        invariant
            i <= irqs@.len(),
            r@ == irqs@.subrange(0, i as int),
        decreases irqs@.len() - i,
    {
        r.push(irqs[i]);
        i = i + 1;
        assert(r@ =~= irqs@.subrange(0, i as int));
    }
    assert(r@ =~= irqs@);
    r
}

impl Descriptor {
    /// A copy of this descriptor, field for field.
    pub fn duplicate(&self) -> (r: Self)
        ensures
            r@ == self@,
    {
        Descriptor {
            name: self.name.clone(),
            device_id: self.device_id,
            irq_parent: self.irq_parent,
            irqs: copy_irqs(&self.irqs),
        }
    }
}

} // verus!
