use rdrive::descriptor::{DeviceId, IrqConfig, Trigger};
use rdrive::device::{Container, Device};
use rdrive::probe::{
    collect_irqs, select_parser, Capability, DriverError, DriverRegister,
    FdtNode, HardwareKind, IrqParseError, ProbeData, ProbeFdtInfo, ProbeHost, ProbeKind,
};

/// Probe functions by registration name: "intc" yields one controller, "timer" one
/// timer, "multi" two timers, "fail" an error. Parser 1 reads `[irq, flags]`.
struct Host {
    calls: Vec<usize>,
    intc_caps: bool,
}

impl ProbeHost<u32, u32, u32, u32> for Host {
    fn on_probe(
        &mut self,
        info: &ProbeFdtInfo,
        _node: &FdtNode,
        irqs: &Vec<IrqConfig>,
    ) -> Result<Vec<HardwareKind<u32, u32, u32>>, String> {
        self.calls.push(info.node);
        match info.name.as_str() {
            "intc" => Ok(vec![HardwareKind::Intc(100)]),
            "timer" => Ok(vec![HardwareKind::Timer(irqs.len() as u32)]),
            "multi" => Ok(vec![HardwareKind::Timer(1), HardwareKind::Power(2)]),
            _ => Err("probe failed".to_string()),
        }
    }

    fn capabilities(&self, _intc: &u32) -> Vec<Capability<u32>> {
        if self.intc_caps {
            vec![Capability::FdtParseConfigFn(1)]
        } else {
            vec![]
        }
    }

    fn parse_irq_cell(&self, parser: &u32, irq_cell: &Vec<u32>) -> Result<IrqConfig, String> {
        if *parser != 1 || irq_cell.len() != 2 {
            return Err("bad cell".to_string());
        }
        Ok(IrqConfig { irq: irq_cell[0] as usize, trigger: Trigger::LevelHigh, is_private: irq_cell[1] != 0 })
    }
}

fn host() -> Host {
    Host { calls: vec![], intc_caps: true }
}

fn node(compat: &str, phandle: Option<u32>, parent: Option<u32>, irqs: Vec<Vec<u32>>) -> FdtNode {
    FdtNode {
        name: compat.to_string(),
        compatibles: vec![compat.to_string()],
        disabled: false,
        phandle,
        interrupt_parent: parent,
        interrupts: irqs,
    }
}

fn reg(index: usize, name: &str, compat: &[&str]) -> (usize, DriverRegister) {
    (
        index,
        DriverRegister {
            name: name.to_string(),
            probe_kinds: vec![ProbeKind::Fdt { compatibles: compat.iter().map(|s| s.to_string()).collect() }],
        },
    )
}

fn registers() -> Vec<(usize, DriverRegister)> {
    vec![
        reg(0, "intc", &["arm,gic"]),
        reg(1, "timer", &["arm,timer", "arm,timer2"]),
        reg(2, "multi", &["vendor,mfd"]),
        reg(3, "fail", &["vendor,broken"]),
    ]
}

#[test]
fn disabled_node_yields_nothing() {
    let mut n = node("arm,timer", None, None, vec![]);
    n.disabled = true;
    let nodes = vec![n];
    assert_eq!(ProbeData::<u32>::new().get_all_fdt_registers(&registers(), &nodes).len(), 0);
    let mut pd: ProbeData<u32> = ProbeData::new();
    let mut h = host();
    let out = pd.probe(&mut h, &registers(), &nodes).unwrap();
    assert_eq!(out.len(), 0);
    assert!(h.calls.is_empty());
}

#[test]
fn matching_follows_tree_then_registration_order() {
    let mut both = node("arm,timer2", None, None, vec![]);
    both.compatibles.push("vendor,mfd".to_string());
    let nodes = vec![node("none,thing", None, None, vec![]), both, node("arm,gic", Some(1), None, vec![])];
    let pending = ProbeData::<u32>::new().get_all_fdt_registers(&registers(), &nodes);
    let got: Vec<(usize, usize, String)> =
        pending.iter().map(|p| (p.node, p.register_index, p.name.clone())).collect();
    assert_eq!(
        got,
        vec![(1, 1, "timer".to_string()), (1, 2, "multi".to_string()), (2, 0, "intc".to_string())]
    );
    assert_eq!(pending[0].register, 1);
    assert_eq!(pending[0].kind, 0);
}

#[test]
fn controller_first_resolves_interrupts() {
    let nodes = vec![
        node("arm,gic", Some(5), None, vec![]),
        node("arm,timer", None, Some(5), vec![vec![30, 0]]),
    ];
    let mut pd: ProbeData<u32> = ProbeData::new();
    let out = pd.probe(&mut host(), &registers(), &nodes).unwrap();
    assert_eq!(out.len(), 2);
    let a = &out[0];
    let b = &out[1];
    assert!(matches!(a.dev, HardwareKind::Intc(100)));
    assert_eq!(a.descriptor.irq_parent, None);
    assert_eq!(pd.phandle_2_device_id(5), Some(a.descriptor.device_id));
    assert_eq!(b.descriptor.irq_parent, Some(a.descriptor.device_id));
    assert_eq!(b.descriptor.irqs, vec![IrqConfig { irq: 30, trigger: Trigger::LevelHigh, is_private: false }]);
    assert_eq!(b.descriptor.name, "timer");
    assert_eq!(b.register_id, 1);
}

#[test]
fn controller_later_leaves_interrupts_empty() {
    let nodes = vec![
        node("arm,timer", None, Some(5), vec![vec![30, 0]]),
        node("arm,gic", Some(5), None, vec![]),
    ];
    let mut pd: ProbeData<u32> = ProbeData::new();
    let out = pd.probe(&mut host(), &registers(), &nodes).unwrap();
    assert_eq!(out.len(), 2);
    assert!(matches!(out[0].dev, HardwareKind::Timer(0)));
    assert_eq!(out[0].descriptor.irq_parent, None);
    assert!(out[0].descriptor.irqs.is_empty());
    assert_eq!(pd.phandle_2_device_id(5), Some(out[1].descriptor.device_id));
}

#[test]
fn bad_cell_is_dropped_alone() {
    let nodes = vec![
        node("arm,gic", Some(5), None, vec![]),
        node("arm,timer", None, Some(5), vec![vec![1, 0], vec![9], vec![2, 1]]),
    ];
    let mut pd: ProbeData<u32> = ProbeData::new();
    let out = pd.probe(&mut host(), &registers(), &nodes).unwrap();
    let irqs: Vec<(usize, bool)> = out[1].descriptor.irqs.iter().map(|c| (c.irq, c.is_private)).collect();
    assert_eq!(irqs, vec![(1, false), (2, true)]);
}

#[test]
fn controller_without_phandle_fails_pass() {
    let nodes = vec![
        node("arm,timer", None, None, vec![]),
        node("arm,gic", None, None, vec![]),
        node("arm,timer", None, None, vec![]),
    ];
    let mut pd: ProbeData<u32> = ProbeData::new();
    let mut h = host();
    let r = pd.probe(&mut h, &registers(), &nodes);
    assert!(matches!(r, Err(DriverError::IntcNoPhandle)));
    assert_eq!(h.calls, vec![0, 1]);
}

#[test]
fn controller_without_parser_fails_pass() {
    let nodes = vec![node("arm,gic", Some(2), None, vec![])];
    let mut pd: ProbeData<u32> = ProbeData::new();
    let mut h = Host { calls: vec![], intc_caps: false };
    let r = pd.probe(&mut h, &registers(), &nodes);
    assert!(matches!(r, Err(DriverError::IntcNoIrqParser)));
    assert_eq!(pd.phandle_2_device_id(2), None);
}

#[test]
fn probe_error_stops_pass() {
    let nodes = vec![node("vendor,broken", None, None, vec![]), node("arm,timer", None, None, vec![])];
    let mut pd: ProbeData<u32> = ProbeData::new();
    let mut h = host();
    match pd.probe(&mut h, &registers(), &nodes) {
        Err(DriverError::Probe(m)) => assert_eq!(m, "probe failed"),
        _ => panic!("expected a probe error"),
    }
    assert_eq!(h.calls, vec![0]);
}

#[test]
fn instances_of_one_node_come_last_first() {
    let nodes = vec![node("vendor,mfd", None, None, vec![])];
    let mut pd: ProbeData<u32> = ProbeData::new();
    let out = pd.probe(&mut host(), &registers(), &nodes).unwrap();
    assert_eq!(out.len(), 2);
    assert!(matches!(out[0].dev, HardwareKind::Power(2)));
    assert!(matches!(out[1].dev, HardwareKind::Timer(1)));
    assert_eq!(out[0].descriptor.device_id, DeviceId(0));
    assert_eq!(out[1].descriptor.device_id, DeviceId(1));
}

#[test]
fn probed_descriptor_survives_container() {
    let nodes = vec![
        node("arm,gic", Some(5), None, vec![]),
        node("arm,timer", None, Some(5), vec![vec![30, 1]]),
    ];
    let mut pd: ProbeData<u32> = ProbeData::new();
    let mut out = pd.probe(&mut host(), &registers(), &nodes).unwrap();
    let b = out.pop().unwrap();
    let id = b.descriptor.device_id;
    let expect_irqs = b.descriptor.irqs.clone();
    let expect_parent = b.descriptor.irq_parent;
    let mut c = Container::new();
    c.insert(Device::new(b.descriptor, 0u8));
    let w = c.get(id).unwrap();
    assert_eq!(w.descriptor.name, "timer");
    assert_eq!(w.descriptor.irqs, expect_irqs);
    assert_eq!(w.descriptor.irq_parent, expect_parent);
    let d = w.upgrade(&c).unwrap();
    assert_eq!(d.descriptor.irqs, expect_irqs);
}

#[test]
fn parse_irq_without_parser() {
    let pd: ProbeData<u32> = ProbeData::new();
    assert!(matches!(pd.parse_irq(&host(), 4, &vec![1, 0]), Err(IrqParseError::NoParser(4))));
}

#[test]
fn select_parser_takes_last() {
    assert_eq!(select_parser::<u32>(vec![]), None);
    assert_eq!(
        select_parser(vec![Capability::FdtParseConfigFn(3u32), Capability::FdtParseConfigFn(4)]),
        Some(4)
    );
}

#[test]
fn collect_irqs_keeps_parsed_entries() {
    let c = IrqConfig { irq: 7, trigger: Trigger::EdgeRising, is_private: true };
    let rs = vec![Err(IrqParseError::NoParser(1)), Ok(c), Err(IrqParseError::Parser("x".to_string()))];
    assert_eq!(collect_irqs(&rs), vec![c]);
}

#[test]
fn ids_keep_counting_across_passes() {
    let nodes = vec![node("arm,timer", None, None, vec![])];
    let mut pd: ProbeData<u32> = ProbeData::new();
    let first = pd.probe(&mut host(), &registers(), &nodes).unwrap();
    let second = pd.probe(&mut host(), &registers(), &nodes).unwrap();
    assert_eq!(first[0].descriptor.device_id, DeviceId(0));
    assert_eq!(second[0].descriptor.device_id, DeviceId(1));
}

#[test]
fn register_instance_assigns_identity_and_tables() {
    let mut pd: ProbeData<u32> = ProbeData::new();
    let info = ProbeFdtInfo { name: "gic".to_string(), node: 0, register_index: 6, register: 0, kind: 0 };
    let n = node("arm,gic", Some(9), Some(3), vec![]);
    let irqs = vec![IrqConfig { irq: 1, trigger: Trigger::EdgeBoth, is_private: true }];
    let d = pd
        .register_instance::<u32, u32, u32>(&info, &n, Some(DeviceId(77)), &irqs, HardwareKind::Intc(1), Some(1))
        .unwrap();
    assert_eq!(d.register_id, 6);
    assert_eq!(d.descriptor.device_id, DeviceId(0));
    assert_eq!(d.descriptor.irq_parent, None);
    assert_eq!(d.descriptor.irqs, irqs);
    assert_eq!(pd.phandle_2_device_id(9), Some(DeviceId(0)));
    let t = pd
        .register_instance::<u32, u32, u32>(&info, &n, Some(DeviceId(77)), &irqs, HardwareKind::Timer(1), None)
        .unwrap();
    assert_eq!(t.descriptor.device_id, DeviceId(1));
    assert_eq!(t.descriptor.irq_parent, Some(DeviceId(77)));
    assert_eq!(pd.parse_irq(&host(), 9, &vec![5, 0]).unwrap().irq, 5);
}

#[test]
fn register_instances_last_first_and_first_error() {
    let mut pd: ProbeData<u32> = ProbeData::new();
    let info = ProbeFdtInfo { name: "mfd".to_string(), node: 0, register_index: 2, register: 0, kind: 0 };
    let n = node("vendor,mfd", None, None, vec![]);
    let out = pd
        .register_instances::<u32, u32, u32>(&info, &n, None, &vec![], vec![HardwareKind::Timer(1), HardwareKind::Power(2)], vec![None, None])
        .unwrap();
    assert!(matches!(out[0].dev, HardwareKind::Power(2)));
    assert!(matches!(out[1].dev, HardwareKind::Timer(1)));
    assert_eq!(out[1].descriptor.device_id, DeviceId(1));
    let r = pd.register_instances::<u32, u32, u32>(
        &info,
        &n,
        None,
        &vec![],
        vec![HardwareKind::Intc(1), HardwareKind::Timer(3)],
        vec![Some(1), None],
    );
    assert!(matches!(r, Err(DriverError::IntcNoPhandle)));
}
