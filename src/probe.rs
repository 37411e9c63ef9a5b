use std::collections::BTreeMap;
use vstd::prelude::*;

use crate::descriptor::{Descriptor, DescriptorView, DeviceId, IrqConfig};

verus! {

broadcast use vstd::std_specs::btree::group_btree_axioms, vstd::laws_cmp::group_laws_cmp;

/// A node of the hardware-description tree, as the prober reads it.
pub struct FdtNode {
    pub name: String,
    /// The node's compatibility strings, most specific first.
    pub compatibles: Vec<String>,
    /// The node's status says it is disabled.
    pub disabled: bool,
    /// The handle by which other nodes refer to this one.
    pub phandle: Option<u32>,
    /// The handle of the node's interrupt parent, if it declares one.
    pub interrupt_parent: Option<u32>,
    /// The raw cells of each interrupt the node lists.
    pub interrupts: Vec<Vec<u32>>,
}

/// One way a driver class can be probed.
pub enum ProbeKind {
    /// From a tree node whose compatibility list meets `compatibles`.
    Fdt { compatibles: Vec<String> },
}

/// A driver class as registered with the prober.
pub struct DriverRegister {
    pub name: String,
    pub probe_kinds: Vec<ProbeKind>,
}

/// A pending probe: a node matched by one probe kind of one registration.
pub struct ProbeFdtInfo {
    /// Name of the registration.
    pub name: String,
    /// Position of the node in the tree's node list.
    pub node: usize,
    /// Index the registration was given by its owner.
    pub register_index: usize,
    /// Position of the registration in the list the prober was given.
    pub register: usize,
    /// Position of the probe kind within the registration.
    pub kind: usize,
}

pub struct ProbeFdtInfoView {
    pub name: Seq<char>,
    pub node: usize,
    pub register_index: usize,
    pub register: usize,
    pub kind: usize,
}

impl View for ProbeFdtInfo {
    type V = ProbeFdtInfoView;

    open spec fn view(&self) -> ProbeFdtInfoView {
        ProbeFdtInfoView {
            name: self.name@,
            node: self.node,
            register_index: self.register_index,
            register: self.register,
            kind: self.kind,
        }
    }
}

pub open spec fn info_views(s: Seq<ProbeFdtInfo>) -> Seq<ProbeFdtInfoView> {
    s.map_values(|p: ProbeFdtInfo| p@)
}

pub open spec fn strings_view(s: Seq<String>) -> Seq<Seq<char>> {
    s.map_values(|x: String| x@)
}

/// Some compatibility string of the node is among those of the probe kind.
pub open spec fn compat_hit(node: Seq<Seq<char>>, kind: Seq<Seq<char>>) -> bool {
    exists|i: int| 0 <= i < node.len() && kind.contains(#[trigger] node[i])
}

pub open spec fn kind_compatibles(k: ProbeKind) -> Seq<Seq<char>> {
    match k {
        ProbeKind::Fdt { compatibles } => strings_view(compatibles@),
    }
}

/// Pending probes of node `n` from the first `k` probe kinds of registration `r`.
pub open spec fn matches_of_register(
    node: FdtNode,
    n: int,
    regs: Seq<(usize, DriverRegister)>,
    r: int,
    k: int,
) -> Seq<ProbeFdtInfoView>
    decreases k,
{
    if k <= 0 {
        Seq::empty()
    } else {
        let prev = matches_of_register(node, n, regs, r, k - 1);
        if compat_hit(strings_view(node.compatibles@), kind_compatibles(regs[r].1.probe_kinds@[k - 1])) {
            prev.push(
                ProbeFdtInfoView {
                    name: regs[r].1.name@,
                    node: n as usize,
                    register_index: regs[r].0,
                    register: r as usize,
                    kind: (k - 1) as usize,
                },
            )
        } else {
            prev
        }
    }
}

/// Pending probes of node `n` from the first `r` registrations.
pub open spec fn matches_of_node(
    node: FdtNode,
    n: int,
    regs: Seq<(usize, DriverRegister)>,
    r: int,
) -> Seq<ProbeFdtInfoView>
    decreases r,
{
    if r <= 0 {
        Seq::empty()
    } else {
        matches_of_node(node, n, regs, r - 1) + matches_of_register(
            node,
            n,
            regs,
            r - 1,
            regs[r - 1].1.probe_kinds@.len() as int,
        )
    }
}

/// Pending probes of the first `n` nodes of the tree: disabled nodes give none.
pub open spec fn matches_of_tree(
    nodes: Seq<FdtNode>,
    regs: Seq<(usize, DriverRegister)>,
    n: int,
) -> Seq<ProbeFdtInfoView>
    decreases n,
{
    if n <= 0 {
        Seq::empty()
    } else {
        matches_of_tree(nodes, regs, n - 1) + if nodes[n - 1].disabled {
            Seq::empty()
        } else {
            matches_of_node(nodes[n - 1], n - 1, regs, regs.len() as int)
        }
    }
}

/// Whether one of the node's compatibility strings is among the probe kind's.
pub fn compatible_with(node: &FdtNode, kind: &ProbeKind) -> (r: bool)
    ensures
        r == compat_hit(strings_view(node.compatibles@), kind_compatibles(*kind)),
{
    let ProbeKind::Fdt { compatibles } = kind;
    let ghost nv = strings_view(node.compatibles@);
    let ghost kv = strings_view(compatibles@);
    let mut i: usize = 0;
    while i < node.compatibles.len()
        invariant
            i <= node.compatibles@.len(),
            nv == strings_view(node.compatibles@),
            kv == strings_view(compatibles@),
            kv == kind_compatibles(*kind),
            forall|a: int| 0 <= a < i ==> !kv.contains(#[trigger] nv[a]),
        decreases node.compatibles@.len() - i,
    {
        let mut j: usize = 0;
        while j < compatibles.len()
            invariant
                i < node.compatibles@.len(),
                j <= compatibles@.len(),
                nv == strings_view(node.compatibles@),
                kv == strings_view(compatibles@),
                kv == kind_compatibles(*kind),
                forall|b: int| 0 <= b < j ==> kv[b] != nv[i as int],
            decreases compatibles@.len() - j,
        {
            if compatibles[j] == node.compatibles[i] {
                assert(kv[j as int] == nv[i as int]);
                assert(kv.contains(nv[i as int]));
                return true;
            }
            j = j + 1;
        }
        assert(!kv.contains(nv[i as int]));
        i = i + 1;
    }
    false
}

/// A driver instance returned by a probe function, tagged with its class.
pub enum HardwareKind<I, T, P> {
    Intc(I),
    Timer(T),
    Power(P),
}

/// A capability that an interrupt-controller instance exposes.
pub enum Capability<F> {
    /// A parser from raw interrupt cells to an interrupt configuration.
    FdtParseConfigFn(F),
}

/// Why a probe pass stopped.
#[derive(Debug)]
pub enum DriverError {
    /// An interrupt controller was found on a node without a phandle.
    IntcNoPhandle,
    /// An interrupt controller exposes no interrupt-cell parser.
    IntcNoIrqParser,
    /// A probe function failed, with its message.
    Probe(String),
    /// Every device identity has been handed out.
    IdExhausted,
}

/// Why one interrupt entry could not be resolved.
#[derive(Debug)]
pub enum IrqParseError {
    /// No controller has registered a parser under this phandle.
    NoParser(u32),
    /// The controller's parser refused the cells, with its message.
    Parser(String),
}

/// A device found by a probe pass: which registration produced it, its descriptor,
/// and the driver instance.
pub struct ProbedDevice<I, T, P> {
    pub register_id: usize,
    pub descriptor: Descriptor,
    pub dev: HardwareKind<I, T, P>,
}

/// What the prober calls out to: the registered probe functions, the capability
/// query of interrupt controllers, and their interrupt-cell parsers.
pub trait ProbeHost<F, I, T, P> {
    /// Runs the probe function of `info.kind` in registration `info.register` on `node`.
    fn on_probe(&mut self, info: &ProbeFdtInfo, node: &FdtNode, irqs: &Vec<IrqConfig>) -> Result<
        Vec<HardwareKind<I, T, P>>,
        String,
    >;

    /// The capabilities that an interrupt-controller instance exposes.
    fn capabilities(&self, intc: &I) -> Vec<Capability<F>>;

    /// Runs an interrupt-cell parser on one entry's cells.
    fn parse_irq_cell(&self, parser: &F, irq_cell: &Vec<u32>) -> Result<IrqConfig, String>;
}

/// The parser an interrupt controller exposes: the last one it lists.
pub fn select_parser<F>(caps: Vec<Capability<F>>) -> (r: Option<F>)
    ensures
        caps@.len() == 0 ==> r is None,
        caps@.len() > 0 ==> r == Some(match caps@.last() {
            Capability::FdtParseConfigFn(f) => f,
        }),
{
    let mut caps = caps;
    match caps.pop() {
        Some(Capability::FdtParseConfigFn(f)) => Some(f),
        None => None,
    }
}

/// The configurations of the entries that parsed, in order.
pub open spec fn parsed_irqs(results: Seq<Result<IrqConfig, IrqParseError>>) -> Seq<IrqConfig>
    decreases results.len(),
{
    if results.len() == 0 {
        Seq::empty()
    } else {
        let prev = parsed_irqs(results.drop_last());
        match results.last() {
            Ok(c) => prev.push(c),
            Err(_) => prev,
        }
    }
}

/// Keeps the interrupt configurations that parsed and drops the entries that did not.
pub fn collect_irqs(results: &Vec<Result<IrqConfig, IrqParseError>>) -> (r: Vec<IrqConfig>)
    ensures
        r@ == parsed_irqs(results@),
{
    let mut out: Vec<IrqConfig> = Vec::new();
    let mut i: usize = 0;
    while i < results.len()
        invariant
            i <= results@.len(),
            out@ == parsed_irqs(results@.subrange(0, i as int)),
        decreases results@.len() - i,
    {
        assert(results@.subrange(0, i + 1).drop_last() =~= results@.subrange(0, i as int));
        match &results[i] {
            Ok(c) => out.push(*c),
            Err(_) => {},
        }
        i = i + 1;
    }
    assert(results@.subrange(0, results@.len() as int) =~= results@);
    out
}

/// Interrupt parent that a node resolves to, given the controllers registered so far.
pub open spec fn irq_parent_spec(ids: Map<u32, DeviceId>, node: FdtNode) -> Option<DeviceId> {
    match node.interrupt_parent {
        Some(p) => if ids.contains_key(p) {
            Some(ids[p])
        } else {
            None
        },
        None => None,
    }
}

/// Descriptor of an instance found by pending probe `info` under identity `id`: an
/// interrupt controller has no interrupt parent of its own.
pub open spec fn instance_descriptor(
    info: ProbeFdtInfoView,
    id: u64,
    is_intc: bool,
    irq_parent: Option<DeviceId>,
    irqs: Seq<IrqConfig>,
) -> DescriptorView {
    DescriptorView {
        name: info.name,
        device_id: DeviceId(id),
        irq_parent: if is_intc {
            None
        } else {
            irq_parent
        },
        irqs,
    }
}

/// The error registering one instance at identity `next` fails with, if any: an
/// exhausted identity space, or a controller on a node without a phandle or
/// without a parser.
pub open spec fn instance_error(next: int, is_intc: bool, node: FdtNode, has_parser: bool) -> Option<DriverError> {
    if next >= u64::MAX {
        Some(DriverError::IdExhausted)
    } else if is_intc && node.phandle is None {
        Some(DriverError::IntcNoPhandle)
    } else if is_intc && !has_parser {
        Some(DriverError::IntcNoIrqParser)
    } else {
        None
    }
}

/// The first `k` instances of a list, taken last first from identity `next`, all register.
pub open spec fn first_ok<I, T, P, F>(
    next: int,
    devs: Seq<HardwareKind<I, T, P>>,
    parsers: Seq<Option<F>>,
    node: FdtNode,
    k: int,
) -> bool {
    forall|j: int|
        0 <= j < k ==> #[trigger] instance_error(
            next + j,
            devs[devs.len() - 1 - j] is Intc,
            node,
            parsers[devs.len() - 1 - j] is Some,
        ) is None
}

/// Devices of one pass: identities increasing and drawn from `[lo, hi)`, and no
/// interrupt controller chained to a parent.
pub open spec fn probed_well<I, T, P>(out: Seq<ProbedDevice<I, T, P>>, lo: u64, hi: u64) -> bool {
    &&& forall|a: int, b: int|
        0 <= a < b < out.len() ==> out[a].descriptor.device_id.0 < out[b].descriptor.device_id.0
    &&& forall|a: int|
        0 <= a < out.len() ==> lo <= (#[trigger] out[a].descriptor).device_id.0 < hi
    &&& forall|a: int|
        0 <= a < out.len() && (#[trigger] out[a].dev) is Intc ==> out[a].descriptor.irq_parent is None
}

/// A device came from pending probe `info`: it carries that registration's index
/// and name, and no more interrupts than the probed node lists.
pub open spec fn came_from<I, T, P>(d: ProbedDevice<I, T, P>, info: ProbeFdtInfoView, nodes: Seq<FdtNode>) -> bool {
    &&& d.register_id == info.register_index
    &&& d.descriptor.name@ == info.name
    &&& d.descriptor.irqs@.len() <= nodes[info.node as int].interrupts@.len()
    &&& d.dev is Intc ==> nodes[info.node as int].phandle is Some
    &&& nodes[info.node as int].interrupt_parent is None ==> d.descriptor.irq_parent is None
        && d.descriptor.irqs@.len() == 0
    &&& !(d.dev is Intc) && d.descriptor.irq_parent is None ==> d.descriptor.irqs@.len() == 0
    &&& exists|rs: Seq<Result<IrqConfig, IrqParseError>>|
        rs.len() == (if nodes[info.node as int].interrupt_parent is Some {
            nodes[info.node as int].interrupts@.len()
        } else {
            0
        }) && #[trigger] parsed_irqs(rs) == d.descriptor.irqs@
}

/// Outputs `a` of group `j`: those in `[starts[j], starts[j + 1])`.
pub open spec fn in_group(starts: Seq<int>, j: int, a: int) -> bool {
    starts[j] <= a < starts[j + 1]
}

/// How the first `k` pending probes of a pass went: the outputs of pending probe `j`
/// form group `j`, in order; `trace[j]` is the identity table as it stood when probe
/// `j` was resolved. A non-controller's parent is looked up in that table, and the
/// table changes only at the probed node's phandle, where the last controller of
/// the group is recorded.
pub open spec fn pass_trace<I, T, P>(
    out: Seq<ProbedDevice<I, T, P>>,
    trace: Seq<Map<u32, DeviceId>>,
    starts: Seq<int>,
    pending: Seq<ProbeFdtInfoView>,
    nodes: Seq<FdtNode>,
    k: int,
) -> bool {
    &&& 0 <= k <= pending.len()
    &&& starts.len() == k + 1
    &&& trace.len() == k + 1
    &&& starts[0] == 0
    &&& starts[k] == out.len()
    &&& forall|j: int| 0 <= j < k ==> #[trigger] starts[j] <= starts[j + 1]
    &&& forall|j: int| 0 <= j <= k ==> 0 <= #[trigger] starts[j] <= starts[k]
    &&& forall|j: int, a: int, b: int|
        0 <= j < k && #[trigger] in_group(starts, j, a) && #[trigger] in_group(starts, j, b)
            ==> out[a].descriptor.irqs@ == out[b].descriptor.irqs@
    &&& forall|j: int, a: int|
        0 <= j < k && #[trigger] in_group(starts, j, a) ==> {
            &&& out[a].register_id == pending[j].register_index
            &&& out[a].descriptor.name@ == pending[j].name
            &&& out[a].dev is Intc ==> nodes[pending[j].node as int].phandle is Some
            &&& !(out[a].dev is Intc) ==> out[a].descriptor.irq_parent == irq_parent_spec(
                trace[j],
                nodes[pending[j].node as int],
            )
        }
    &&& forall|j: int|
        0 <= j < k ==> {
            let ph = nodes[pending[j].node as int].phandle;
            &&& (forall|a: int| in_group(starts, j, a) ==> !(#[trigger] out[a].dev is Intc)) ==> trace[j + 1]
                == #[trigger] trace[j]
            &&& ph is Some ==> trace[j + 1].remove(ph->0) == trace[j].remove(ph->0)
            &&& forall|a: int|
                #[trigger] in_group(starts, j, a) && out[a].dev is Intc && (forall|b: int|
                    a < b < starts[j + 1] ==> !(out[b].dev is Intc)) ==> trace[j + 1].contains_key(ph->0)
                    && trace[j + 1][ph->0] == out[a].descriptor.device_id
        }
}

/// A whole pass went as `pass_trace` says, from identity table `before` to `after`.
pub open spec fn traced_pass<I, T, P>(
    out: Seq<ProbedDevice<I, T, P>>,
    before: Map<u32, DeviceId>,
    after: Map<u32, DeviceId>,
    pending: Seq<ProbeFdtInfoView>,
    nodes: Seq<FdtNode>,
) -> bool {
    exists|trace: Seq<Map<u32, DeviceId>>, starts: Seq<int>|
        #[trigger] pass_trace(out, trace, starts, pending, nodes, pending.len() as int) && trace[0] == before
            && trace[pending.len() as int] == after
}

/// The controller tables differ between `a` and `b` only at phandles of nodes that
/// some pending probe names.
pub open spec fn tables_kept_outside<F>(
    a_ids: Map<u32, DeviceId>,
    a_parsers: Map<u32, F>,
    b_ids: Map<u32, DeviceId>,
    b_parsers: Map<u32, F>,
    pending: Seq<ProbeFdtInfoView>,
    nodes: Seq<FdtNode>,
) -> bool {
    forall|p: u32|
        #![trigger b_ids.contains_key(p)]
        #![trigger b_parsers.contains_key(p)]
        (forall|j: int| 0 <= j < pending.len() ==> nodes[pending[j].node as int].phandle != Some(p)) ==> {
            &&& b_ids.contains_key(p) == a_ids.contains_key(p)
            &&& a_ids.contains_key(p) ==> b_ids[p] == a_ids[p]
            &&& b_parsers.contains_key(p) == a_parsers.contains_key(p)
            &&& a_parsers.contains_key(p) ==> b_parsers[p] == a_parsers[p]
        }
}

/// The device came from one of the pending probes.
pub open spec fn has_origin<I, T, P>(d: ProbedDevice<I, T, P>, pending: Seq<ProbeFdtInfoView>, nodes: Seq<FdtNode>) -> bool {
    exists|j: int| 0 <= j < pending.len() && #[trigger] came_from(d, pending[j], nodes)
}

/// Every device of a pass came from one of the pending probes.
pub open spec fn from_pending<I, T, P>(
    out: Seq<ProbedDevice<I, T, P>>,
    pending: Seq<ProbeFdtInfoView>,
    nodes: Seq<FdtNode>,
) -> bool {
    forall|a: int| 0 <= a < out.len() ==> #[trigger] has_origin(out[a], pending, nodes)
}

/// Working state of probe passes: the controllers registered so far, by phandle,
/// and the next device identity to hand out.
pub struct ProbeData<F> {
    phandle_2_device_id: BTreeMap<u32, DeviceId>,
    phandle_2_irq_parse: BTreeMap<u32, F>,
    next_id: u64,
}

impl<F> ProbeData<F> {
    pub closed spec fn spec_ids(&self) -> Map<u32, DeviceId> {
        self.phandle_2_device_id@
    }

    pub closed spec fn spec_parsers(&self) -> Map<u32, F> {
        self.phandle_2_irq_parse@
    }

    pub closed spec fn spec_next_id(&self) -> u64 {
        self.next_id
    }

    /// Every registered controller has both an identity and a parser.
    pub open spec fn wf(&self) -> bool {
        self.spec_ids().dom() == self.spec_parsers().dom()
    }

    /// No controller registered; identities start at zero.
    pub fn new() -> (r: Self)
        ensures
            r.spec_ids() == Map::<u32, DeviceId>::empty(),
            r.spec_parsers() == Map::<u32, F>::empty(),
            r.spec_next_id() == 0,
            r.wf(),
    {
        ProbeData { phandle_2_device_id: BTreeMap::new(), phandle_2_irq_parse: BTreeMap::new(), next_id: 0 }
    }

    /// The identity of the controller registered under `phandle`.
    pub fn phandle_2_device_id(&self, phandle: u32) -> (r: Option<DeviceId>)
        ensures
            r is Some <==> self.spec_ids().contains_key(phandle),
            r matches Some(id) ==> id == self.spec_ids()[phandle],
    {
        match self.phandle_2_device_id.get(&phandle) {
            Some(id) => Some(*id),
            None => None,
        }
    }

    /// The interrupt parent of `node`: the controller registered under the phandle it
    /// names, if any.
    pub fn irq_parent_of(&self, node: &FdtNode) -> (r: Option<DeviceId>)
        ensures
            r == irq_parent_spec(self.spec_ids(), *node),
    {
        match node.interrupt_parent {
            Some(p) => self.phandle_2_device_id(p),
            None => None,
        }
    }

    /// Parses one interrupt entry with the parser registered under `parent`.
    pub fn parse_irq<I, T, P, H: ProbeHost<F, I, T, P>>(&self, host: &H, parent: u32, irq_cell: &Vec<u32>) -> (r: Result<IrqConfig, IrqParseError>)
        ensures
            !self.spec_parsers().contains_key(parent) ==> (r matches Err(IrqParseError::NoParser(p)) && p == parent),
            r matches Err(IrqParseError::NoParser(p)) ==> !self.spec_parsers().contains_key(parent) && p == parent,
    {
        match self.phandle_2_irq_parse.get(&parent) {
            Some(f) => match host.parse_irq_cell(f, irq_cell) {
                Ok(c) => Ok(c),
                Err(e) => Err(IrqParseError::Parser(e)),
            },
            None => Err(IrqParseError::NoParser(parent)),
        }
    }

    /// The interrupt parent of `node` and the interrupts of its entries that the
    /// parent's parser accepts. Entries of a parent that has registered no parser
    /// yet resolve to nothing.
    pub fn resolve_irqs<I, T, P, H: ProbeHost<F, I, T, P>>(&self, host: &H, node: &FdtNode) -> (r: (Option<DeviceId>, Vec<IrqConfig>))
        ensures
            r.0 == irq_parent_spec(self.spec_ids(), *node),
            r.1@.len() <= node.interrupts@.len(),
            node.interrupt_parent is None ==> r.1@.len() == 0,
            node.interrupt_parent matches Some(p) && !self.spec_parsers().contains_key(p) ==> r.1@.len() == 0,
            exists|rs: Seq<Result<IrqConfig, IrqParseError>>| {
                &&& rs.len() == (if node.interrupt_parent is Some { node.interrupts@.len() } else { 0 })
                &&& r.1@ == parsed_irqs(rs)
                &&& forall|i: int|
                    0 <= i < rs.len() && node.interrupt_parent is Some && !self.spec_parsers().contains_key(
                        node.interrupt_parent->0,
                    ) ==> (#[trigger] rs[i]) == Err::<IrqConfig, IrqParseError>(
                        IrqParseError::NoParser(node.interrupt_parent->0),
                    )
            },
    {
        let irq_parent = self.irq_parent_of(node);
        match node.interrupt_parent {
            Some(parent) => {
                let mut results: Vec<Result<IrqConfig, IrqParseError>> = Vec::new();
                let mut i: usize = 0;
                while i < node.interrupts.len()
                    invariant
                        i <= node.interrupts@.len(),
                        results@.len() == i,
                        !self.spec_parsers().contains_key(parent) ==> forall|j: int|
                            0 <= j < i ==> (#[trigger] results@[j]) == Err::<IrqConfig, IrqParseError>(IrqParseError::NoParser(parent)),
                    decreases node.interrupts@.len() - i,
                {
                    let res = self.parse_irq(host, parent, &node.interrupts[i]);
                    results.push(res);
                    i = i + 1;
                }
                let irqs = collect_irqs(&results);
                proof {
                    lemma_parsed_irqs_len(results@);
                    if !self.spec_parsers().contains_key(parent) {
                        assert forall|j: int| 0 <= j < results@.len() implies (#[trigger] results@[j]) is Err by {}
                        lemma_parsed_irqs_all_err(results@);
                    }
                    assert(irqs@ == parsed_irqs(results@));
                }
                (irq_parent, irqs)
            },
            None => {
                let irqs: Vec<IrqConfig> = Vec::new();
                proof {
                    let rs = Seq::<Result<IrqConfig, IrqParseError>>::empty();
                    assert(irqs@ =~= parsed_irqs(rs));
                }
                (irq_parent, irqs)
            },
        }
    }

    /// Gives an instance found by pending probe `info` its identity and descriptor.
    /// An interrupt controller is registered under its node's phandle together with
    /// its parser, so that later nodes resolve their interrupts through it; it fails
    /// the pass when the node has no phandle or the controller no parser.
    pub fn register_instance<I, T, P>(
        &mut self,
        info: &ProbeFdtInfo,
        node: &FdtNode,
        irq_parent: Option<DeviceId>,
        irqs: &Vec<IrqConfig>,
        dev: HardwareKind<I, T, P>,
        parser: Option<F>,
    ) -> (r: Result<ProbedDevice<I, T, P>, DriverError>)
        ensures
            old(self).spec_next_id() == u64::MAX ==> r matches Err(DriverError::IdExhausted),
            old(self).spec_next_id() < u64::MAX && dev is Intc && node.phandle is None
                ==> r matches Err(DriverError::IntcNoPhandle),
            old(self).spec_next_id() < u64::MAX && dev is Intc && node.phandle is Some && parser is None
                ==> r matches Err(DriverError::IntcNoIrqParser),
            r is Err ==> *final(self) == *old(self),
            r is Ok <==> instance_error(old(self).spec_next_id() as int, dev is Intc, *node, parser is Some) is None,
            r matches Err(e) ==> instance_error(old(self).spec_next_id() as int, dev is Intc, *node, parser is Some) == Some(e),
            r matches Ok(pd) ==> {
                &&& old(self).spec_next_id() < u64::MAX
                &&& final(self).spec_next_id() == old(self).spec_next_id() + 1
                &&& pd.register_id == info.register_index
                &&& pd.descriptor@ == instance_descriptor(info@, old(self).spec_next_id(), dev is Intc, irq_parent, irqs@)
                &&& pd.dev == dev
                &&& dev is Intc ==> {
                    &&& node.phandle is Some
                    &&& parser is Some
                    &&& final(self).spec_ids() == old(self).spec_ids().insert(node.phandle->0, DeviceId(old(self).spec_next_id()))
                    &&& final(self).spec_parsers() == old(self).spec_parsers().insert(node.phandle->0, parser->0)
                }
                &&& !(dev is Intc) ==> {
                    &&& final(self).spec_ids() == old(self).spec_ids()
                    &&& final(self).spec_parsers() == old(self).spec_parsers()
                }
            },
            old(self).spec_next_id() < u64::MAX && !(dev is Intc) ==> r is Ok,
            old(self).spec_next_id() < u64::MAX && dev is Intc && node.phandle is Some && parser is Some ==> r is Ok,
    {
        if self.next_id == u64::MAX {
            return Err(DriverError::IdExhausted);
        }
        let device_id = DeviceId(self.next_id);
        let mut descriptor = Descriptor {
            name: info.name.clone(),
            device_id,
            irq_parent,
            irqs: crate::descriptor::copy_irqs(irqs),
        };
        if let HardwareKind::Intc(_) = &dev {
            descriptor.irq_parent = None;
            let phandle = match node.phandle {
                Some(p) => p,
                None => {
                    return Err(DriverError::IntcNoPhandle);
                },
            };
            let parser = match parser {
                Some(f) => f,
                None => {
                    return Err(DriverError::IntcNoIrqParser);
                },
            };
            self.phandle_2_irq_parse.insert(phandle, parser);
            self.phandle_2_device_id.insert(phandle, device_id);
        }
        self.next_id = self.next_id + 1;
        Ok(ProbedDevice { register_id: info.register_index, descriptor, dev })
    }

    /// Registers the instances one probe function returned, last first, with the
    /// parser each exposes. The first instance that cannot be registered ends the
    /// call with its error.
    pub fn register_instances<I, T, P>(
        &mut self,
        info: &ProbeFdtInfo,
        node: &FdtNode,
        irq_parent: Option<DeviceId>,
        irqs: &Vec<IrqConfig>,
        devs: Vec<HardwareKind<I, T, P>>,
        parsers: Vec<Option<F>>,
    ) -> (r: Result<Vec<ProbedDevice<I, T, P>>, DriverError>)
        requires
            devs@.len() == parsers@.len(),
            old(self).wf(),
        ensures
            final(self).wf(),
            final(self).spec_next_id() >= old(self).spec_next_id(),
            r is Ok <==> first_ok(old(self).spec_next_id() as int, devs@, parsers@, *node, devs@.len() as int),
            r matches Err(e) ==> exists|k: int|
                0 <= k < devs@.len() && first_ok(old(self).spec_next_id() as int, devs@, parsers@, *node, k)
                    && #[trigger] instance_error(
                    old(self).spec_next_id() + k,
                    devs@[devs@.len() - 1 - k] is Intc,
                    *node,
                    parsers@[devs@.len() - 1 - k] is Some,
                ) == Some(e),
            r matches Ok(out) ==> {
                &&& out@.len() == devs@.len()
                &&& final(self).spec_next_id() == old(self).spec_next_id() + devs@.len()
                &&& forall|k: int| 0 <= k < out@.len() ==> {
                    &&& (#[trigger] out@[k]).register_id == info.register_index
                    &&& out@[k].dev == devs@[devs@.len() - 1 - k]
                    &&& out@[k].dev is Intc ==> node.phandle is Some
                    &&& out@[k].descriptor@ == instance_descriptor(
                        info@,
                        (old(self).spec_next_id() + k) as u64,
                        out@[k].dev is Intc,
                        irq_parent,
                        irqs@,
                    )
                }
                &&& forall|k: int|
                    0 <= k < out@.len() && (#[trigger] out@[k].dev) is Intc && (forall|j: int|
                        k < j < out@.len() ==> !(out@[j].dev is Intc)) ==> {
                        &&& final(self).spec_ids().contains_key(node.phandle->0)
                        &&& final(self).spec_ids()[node.phandle->0] == out@[k].descriptor.device_id
                        &&& final(self).spec_parsers()[node.phandle->0] == parsers@[devs@.len() - 1 - k]->0
                    }
                &&& (forall|k: int| 0 <= k < out@.len() ==> !(#[trigger] out@[k].dev is Intc)) ==> {
                    &&& final(self).spec_ids() == old(self).spec_ids()
                    &&& final(self).spec_parsers() == old(self).spec_parsers()
                }
            },
            node.phandle is None ==> final(self).spec_ids() == old(self).spec_ids()
                && final(self).spec_parsers() == old(self).spec_parsers(),
            node.phandle matches Some(ph) ==> final(self).spec_ids().remove(ph) == old(self).spec_ids().remove(ph)
                && final(self).spec_parsers().remove(ph) == old(self).spec_parsers().remove(ph),
    {
        let ghost d0 = devs@;
        let ghost p0 = parsers@;
        let ghost n = devs@.len() as int;
        let mut rest = devs;
        let mut rest_parsers = parsers;
        let mut out: Vec<ProbedDevice<I, T, P>> = Vec::new();
        while rest.len() > 0
            invariant
                self.wf(),
                rest@.len() == rest_parsers@.len(),
                rest@.len() <= n,
                rest@ == d0.subrange(0, rest@.len() as int),
                rest_parsers@ == p0.subrange(0, rest_parsers@.len() as int),
                d0.len() == n,
                p0.len() == n,
                d0 == devs@,
                p0 == parsers@,
                out@.len() == n - rest@.len(),
                self.spec_next_id() == old(self).spec_next_id() + out@.len(),
                first_ok(old(self).spec_next_id() as int, d0, p0, *node, out@.len() as int),
                forall|k: int| 0 <= k < out@.len() ==> {
                    &&& (#[trigger] out@[k]).register_id == info.register_index
                    &&& out@[k].dev == d0[n - 1 - k]
                    &&& out@[k].dev is Intc ==> node.phandle is Some
                    &&& out@[k].descriptor@ == instance_descriptor(
                        info@,
                        (old(self).spec_next_id() + k) as u64,
                        out@[k].dev is Intc,
                        irq_parent,
                        irqs@,
                    )
                },
                forall|k: int|
                    0 <= k < out@.len() && (#[trigger] out@[k].dev) is Intc && (forall|j: int|
                        k < j < out@.len() ==> !(out@[j].dev is Intc)) ==> {
                        &&& self.spec_ids().contains_key(node.phandle->0)
                        &&& self.spec_ids()[node.phandle->0] == out@[k].descriptor.device_id
                        &&& self.spec_parsers()[node.phandle->0] == p0[n - 1 - k]->0
                    },
                (forall|k: int| 0 <= k < out@.len() ==> !(#[trigger] out@[k].dev is Intc)) ==> {
                    &&& self.spec_ids() == old(self).spec_ids()
                    &&& self.spec_parsers() == old(self).spec_parsers()
                },
                node.phandle is None ==> self.spec_ids() == old(self).spec_ids()
                    && self.spec_parsers() == old(self).spec_parsers(),
                node.phandle matches Some(ph) ==> self.spec_ids().remove(ph) == old(self).spec_ids().remove(ph)
                    && self.spec_parsers().remove(ph) == old(self).spec_parsers().remove(ph),
            decreases rest@.len(),
        {
            let ghost k = out@.len() as int;
            let dev = rest.pop().unwrap();
            let parser = rest_parsers.pop().unwrap();
            assert(dev == d0[n - 1 - k]);
            assert(parser == p0[n - 1 - k]);
            let ghost before = out@;
            let ghost ids0 = self.spec_ids();
            let ghost parsers0 = self.spec_parsers();
            match self.register_instance(info, node, irq_parent, irqs, dev, parser) {
                Ok(pd) => {
                    out.push(pd);
                    proof {
                        if node.phandle is Some {
                            let ph = node.phandle->0;
                            assert(self.spec_ids().remove(ph) =~= ids0.remove(ph));
                            assert(self.spec_parsers().remove(ph) =~= parsers0.remove(ph));
                        }
                        assert(instance_error(old(self).spec_next_id() + k, d0[n - 1 - k] is Intc, *node, p0[n - 1 - k] is Some) is None);
                        assert forall|j: int| 0 <= j < out@.len() implies #[trigger] instance_error(
                            old(self).spec_next_id() + j,
                            d0[d0.len() - 1 - j] is Intc,
                            *node,
                            p0[d0.len() - 1 - j] is Some,
                        ) is None by {
                            if j < k {
                                assert(first_ok(old(self).spec_next_id() as int, d0, p0, *node, k));
                            }
                        }
                        assert forall|a: int| 0 <= a < out@.len() implies {
                            &&& (#[trigger] out@[a]).register_id == info.register_index
                            &&& out@[a].dev == d0[n - 1 - a]
                            &&& out@[a].dev is Intc ==> node.phandle is Some
                            &&& out@[a].descriptor@ == instance_descriptor(
                                info@,
                                (old(self).spec_next_id() + a) as u64,
                                out@[a].dev is Intc,
                                irq_parent,
                                irqs@,
                            )
                        } by {
                            if a < k {
                                assert(out@[a] == before[a]);
                            }
                        }
                        assert forall|a: int|
                            0 <= a < out@.len() && (#[trigger] out@[a].dev) is Intc && (forall|j: int|
                                a < j < out@.len() ==> !(out@[j].dev is Intc)) implies {
                                &&& self.spec_ids().contains_key(node.phandle->0)
                                &&& self.spec_ids()[node.phandle->0] == out@[a].descriptor.device_id
                                &&& self.spec_parsers()[node.phandle->0] == p0[n - 1 - a]->0
                            } by {
                            if a < k {
                                assert(out@[a] == before[a]);
                                assert(!(out@[k].dev is Intc));
                                assert forall|j: int| a < j < before.len() implies !(before[j].dev is Intc) by {
                                    assert(out@[j] == before[j]);
                                }
                            }
                        }
                        if !(out@[k].dev is Intc) {
                            assert forall|a: int| 0 <= a < k implies out@[a] == before[a] by {}
                        }
                    }
                },
                Err(e) => {
                    proof {
                        assert(instance_error(
                            old(self).spec_next_id() + k,
                            d0[d0.len() - 1 - k] is Intc,
                            *node,
                            p0[d0.len() - 1 - k] is Some,
                        ) == Some(e));
                        assert(!first_ok(old(self).spec_next_id() as int, d0, p0, *node, n));
                        assert(0 <= k < d0.len() && first_ok(old(self).spec_next_id() as int, d0, p0, *node, k));
                    }
                    return Err(e);
                },
            }
        }
        Ok(out)
    }

    /// Runs the pending probes in order. For each, the node's interrupts are resolved
    /// through the controllers registered so far, its probe function is called, and the
    /// instances it returns are registered last first. The first failure ends the pass.
    pub fn probe_with<I, T, P, H: ProbeHost<F, I, T, P>>(
        &mut self,
        host: &mut H,
        nodes: &Vec<FdtNode>,
        pending: &Vec<ProbeFdtInfo>,
    ) -> (r: Result<Vec<ProbedDevice<I, T, P>>, DriverError>)
        requires
            old(self).wf(),
            forall|i: int| 0 <= i < pending@.len() ==> (#[trigger] pending@[i]).node < nodes@.len(),
        ensures
            final(self).wf(),
            pending@.len() == 0 ==> *final(self) == *old(self),
            final(self).spec_next_id() >= old(self).spec_next_id(),
            pending@.len() == 0 ==> (r matches Ok(out) && out@.len() == 0),
            r matches Ok(out) ==> probed_well(out@, old(self).spec_next_id(), final(self).spec_next_id()),
            r matches Ok(out) ==> from_pending(out@, info_views(pending@), nodes@),
            r matches Ok(out) ==> out@.len() == final(self).spec_next_id() - old(self).spec_next_id(),
            tables_kept_outside(
                old(self).spec_ids(),
                old(self).spec_parsers(),
                final(self).spec_ids(),
                final(self).spec_parsers(),
                info_views(pending@),
                nodes@,
            ),
            r matches Err(DriverError::IntcNoPhandle) ==> exists|j: int|
                0 <= j < pending@.len() && nodes@[(#[trigger] pending@[j]).node as int].phandle is None,
            r matches Err(DriverError::IntcNoIrqParser) ==> exists|j: int|
                0 <= j < pending@.len() && nodes@[(#[trigger] pending@[j]).node as int].phandle is Some,
            r matches Ok(out) ==> traced_pass(out@, old(self).spec_ids(), final(self).spec_ids(), info_views(pending@), nodes@),
    {
        let mut out: Vec<ProbedDevice<I, T, P>> = Vec::new();
        let mut i: usize = 0;
        let ghost mut trace: Seq<Map<u32, DeviceId>> = seq![old(self).spec_ids()];
        let ghost mut starts: Seq<int> = seq![0int];
        while i < pending.len()
            invariant
                forall|j: int| 0 <= j < pending@.len() ==> (#[trigger] pending@[j]).node < nodes@.len(),
                i <= pending@.len(),
                self.spec_next_id() >= old(self).spec_next_id(),
                probed_well(out@, old(self).spec_next_id(), self.spec_next_id()),
                from_pending(out@, info_views(pending@), nodes@),
                i == 0 ==> out@.len() == 0,
                i == 0 ==> *self == *old(self),
                self.wf(),
                out@.len() == self.spec_next_id() - old(self).spec_next_id(),
                pass_trace(out@, trace, starts, info_views(pending@), nodes@, i as int),
                trace[0] == old(self).spec_ids(),
                trace[i as int] == self.spec_ids(),
                tables_kept_outside(
                    old(self).spec_ids(),
                    old(self).spec_parsers(),
                    self.spec_ids(),
                    self.spec_parsers(),
                    info_views(pending@),
                    nodes@,
                ),
            decreases pending@.len() - i,
        {
            let info = &pending[i];
            let node = &nodes[info.node];
            let (irq_parent, irqs) = self.resolve_irqs(&*host, node);
            let mut dev_list = match host.on_probe(info, node, &irqs) {
                Ok(list) => list,
                Err(e) => {
                    return Err(DriverError::Probe(e));
                },
            };
            let mut parsers: Vec<Option<F>> = Vec::new();
            let mut k: usize = 0;
            while k < dev_list.len()
                invariant
                    parsers@.len() == k,
                    k <= dev_list@.len(),
                decreases dev_list@.len() - k,
            {
                let parser = match &dev_list[k] {
                    HardwareKind::Intc(intc) => select_parser(host.capabilities(intc)),
                    _ => None,
                };
                parsers.push(parser);
                k = k + 1;
            }
            proof {
                if irq_parent is None && node.interrupt_parent is Some {
                    assert(!self.spec_ids().contains_key(node.interrupt_parent->0));
                    assert(!self.spec_parsers().contains_key(node.interrupt_parent->0));
                }
            }
            let ghost rs = choose|rs: Seq<Result<IrqConfig, IrqParseError>>| {
                &&& rs.len() == (if node.interrupt_parent is Some { node.interrupts@.len() } else { 0 })
                &&& irqs@ == parsed_irqs(rs)
                &&& forall|i: int|
                    0 <= i < rs.len() && node.interrupt_parent is Some && !self.spec_parsers().contains_key(
                        node.interrupt_parent->0,
                    ) ==> (#[trigger] rs[i]) == Err::<IrqConfig, IrqParseError>(
                        IrqParseError::NoParser(node.interrupt_parent->0),
                    )
            };
            assert(parsed_irqs(rs) == irqs@);
            assert(node.interrupt_parent is None ==> irq_parent is None && irqs@.len() == 0);
            assert(irq_parent is None ==> irqs@.len() == 0);
            let ghost next0 = self.spec_next_id();
            let ghost ids0 = self.spec_ids();
            let ghost parsers0 = self.spec_parsers();
            let ghost before = out@;
            let mut produced = match self.register_instances(info, node, irq_parent, &irqs, dev_list, parsers) {
                Ok(v) => v,
                Err(e) => {
                    proof {
                        assert(info_views(pending@)[i as int] == info@);
                        if e is IntcNoPhandle {
                            assert(nodes@[pending@[i as int].node as int].phandle is None);
                        }
                        if e is IntcNoIrqParser {
                            assert(nodes@[pending@[i as int].node as int].phandle is Some);
                        }
                        lemma_tables_step(
                            old(self).spec_ids(),
                            old(self).spec_parsers(),
                            ids0,
                            parsers0,
                            self.spec_ids(),
                            self.spec_parsers(),
                            info_views(pending@),
                            nodes@,
                            i as int,
                        );
                    }
                    return Err(e);
                },
            };
            let ghost all = produced@;
            out.append(&mut produced);
            proof {
                let pv = info_views(pending@);
                assert(pv[i as int] == info@);
                assert(out@ =~= before + all);
                lemma_tables_step(
                    old(self).spec_ids(),
                    old(self).spec_parsers(),
                    ids0,
                    parsers0,
                    self.spec_ids(),
                    self.spec_parsers(),
                    pv,
                    nodes@,
                    i as int,
                );
                assert forall|a: int, b: int| 0 <= a < b < out@.len() implies out@[a].descriptor.device_id.0 < out@[b].descriptor.device_id.0 by {
                    if b >= before.len() {
                        assert(out@[b] == all[b - before.len()]);
                        if a >= before.len() {
                            assert(out@[a] == all[a - before.len()]);
                        } else {
                            assert(out@[a] == before[a]);
                        }
                    } else {
                        assert(out@[a] == before[a]);
                        assert(out@[b] == before[b]);
                    }
                }
                assert forall|a: int| 0 <= a < out@.len() implies old(self).spec_next_id() <= (#[trigger] out@[a].descriptor).device_id.0 < self.spec_next_id() by {
                    if a >= before.len() {
                        assert(out@[a] == all[a - before.len()]);
                    } else {
                        assert(out@[a] == before[a]);
                    }
                }
                assert forall|a: int| 0 <= a < out@.len() && (#[trigger] out@[a].dev) is Intc implies out@[a].descriptor.irq_parent is None by {
                    if a >= before.len() {
                        assert(out@[a] == all[a - before.len()]);
                    } else {
                        assert(out@[a] == before[a]);
                    }
                }
                assert forall|a: int| 0 <= a < out@.len() implies #[trigger] has_origin(out@[a], pv, nodes@) by {
                    if a >= before.len() {
                        assert(out@[a] == all[a - before.len()]);
                        assert(came_from(out@[a], pv[i as int], nodes@));
                    } else {
                        assert(out@[a] == before[a]);
                    }
                }
                let start = before.len() as int;
                assert forall|k: int| 0 <= k < all.len() implies {
                    &&& (#[trigger] all[k]).register_id == pv[i as int].register_index
                    &&& all[k].descriptor.name@ == pv[i as int].name
                    &&& all[k].dev is Intc ==> nodes@[pv[i as int].node as int].phandle is Some
                    &&& !(all[k].dev is Intc) ==> all[k].descriptor.irq_parent == irq_parent_spec(
                        ids0,
                        nodes@[pv[i as int].node as int],
                    )
                } by {}
                assert forall|k: int| 0 <= k < all.len() implies (#[trigger] all[k]).descriptor.irqs@ == irqs@ by {}
                lemma_trace_step(before, all, out@, trace, starts, ids0, self.spec_ids(), pv, nodes@, i as int, irqs@);
                let tr2 = trace.push(self.spec_ids());
                let st2 = starts.push(out@.len() as int);
                trace = tr2;
                starts = st2;
            }
            i = i + 1;
        }
        proof {
            assert(pass_trace(out@, trace, starts, info_views(pending@), nodes@, pending@.len() as int));
            assert(trace[0] == old(self).spec_ids() && trace[pending@.len() as int] == self.spec_ids());
            assert(traced_pass(out@, old(self).spec_ids(), self.spec_ids(), info_views(pending@), nodes@));
        }
        Ok(out)
    }

    /// One probe pass over a tree's nodes: matches the enabled ones against the
    /// registrations, then runs the pending probes as `probe_with` does.
    pub fn probe<I, T, P, H: ProbeHost<F, I, T, P>>(
        &mut self,
        host: &mut H,
        registers: &Vec<(usize, DriverRegister)>,
        nodes: &Vec<FdtNode>,
    ) -> (r: Result<Vec<ProbedDevice<I, T, P>>, DriverError>)
        requires
            old(self).wf(),
        ensures
            final(self).wf(),
            matches_of_tree(nodes@, registers@, nodes@.len() as int).len() == 0 ==> *final(self) == *old(self),
            final(self).spec_next_id() >= old(self).spec_next_id(),
            matches_of_tree(nodes@, registers@, nodes@.len() as int).len() == 0
                ==> (r matches Ok(out) && out@.len() == 0),
            r matches Ok(out) ==> probed_well(out@, old(self).spec_next_id(), final(self).spec_next_id()),
            r matches Ok(out) ==> from_pending(out@, matches_of_tree(nodes@, registers@, nodes@.len() as int), nodes@),
            r matches Ok(out) ==> out@.len() == final(self).spec_next_id() - old(self).spec_next_id(),
            tables_kept_outside(
                old(self).spec_ids(),
                old(self).spec_parsers(),
                final(self).spec_ids(),
                final(self).spec_parsers(),
                matches_of_tree(nodes@, registers@, nodes@.len() as int),
                nodes@,
            ),
            r matches Ok(out) ==> traced_pass(
                out@,
                old(self).spec_ids(),
                final(self).spec_ids(),
                matches_of_tree(nodes@, registers@, nodes@.len() as int),
                nodes@,
            ),
            r matches Err(DriverError::IntcNoPhandle) ==> exists|j: int|
                0 <= j < matches_of_tree(nodes@, registers@, nodes@.len() as int).len()
                    && nodes@[(#[trigger] matches_of_tree(nodes@, registers@, nodes@.len() as int)[j]).node as int].phandle is None,
            r matches Err(DriverError::IntcNoIrqParser) ==> exists|j: int|
                0 <= j < matches_of_tree(nodes@, registers@, nodes@.len() as int).len()
                    && nodes@[(#[trigger] matches_of_tree(nodes@, registers@, nodes@.len() as int)[j]).node as int].phandle is Some,
    {
        let pending = self.get_all_fdt_registers(registers, nodes);
        let node_count = nodes.len();
        proof {
            assert(nodes@.len() == node_count);
            lemma_tree_nodes(nodes@, registers@, nodes@.len() as int);
            assert forall|i: int| 0 <= i < pending@.len() implies (#[trigger] pending@[i]).node < nodes@.len() by {
                assert(info_views(pending@)[i] == pending@[i]@);
            }
        }
        let r = self.probe_with(host, nodes, &pending);
        proof {
            if r matches Err(DriverError::IntcNoPhandle) {
                let j = choose|j: int| 0 <= j < pending@.len() && nodes@[(#[trigger] pending@[j]).node as int].phandle is None;
                assert(info_views(pending@)[j] == pending@[j]@);
            }
            if r matches Err(DriverError::IntcNoIrqParser) {
                let j = choose|j: int| 0 <= j < pending@.len() && nodes@[(#[trigger] pending@[j]).node as int].phandle is Some;
                assert(info_views(pending@)[j] == pending@[j]@);
            }
        }
        r
    }

    /// The pending probes of a tree: for every enabled node in order, for every
    /// registration in order, for every probe kind in order that shares a
    /// compatibility string with the node, one entry.
    pub fn get_all_fdt_registers(&self, registers: &Vec<(usize, DriverRegister)>, nodes: &Vec<FdtNode>) -> (r: Vec<ProbeFdtInfo>)
        ensures
            info_views(r@) == matches_of_tree(nodes@, registers@, nodes@.len() as int),
    {
        let mut out: Vec<ProbeFdtInfo> = Vec::new();
        let mut n: usize = 0;
        while n < nodes.len()
            invariant
                n <= nodes@.len(),
                info_views(out@) == matches_of_tree(nodes@, registers@, n as int),
            decreases nodes@.len() - n,
        {
            let node = &nodes[n];
            let ghost before = info_views(out@);
            if !node.disabled {
                let mut r: usize = 0;
                while r < registers.len()
                    invariant
                        n < nodes@.len(),
                        *node == nodes@[n as int],
                        !node.disabled,
                        r <= registers@.len(),
                        before == matches_of_tree(nodes@, registers@, n as int),
                        info_views(out@) == before + matches_of_node(*node, n as int, registers@, r as int),
                    decreases registers@.len() - r,
                {
                    let (index, register) = &registers[r];
                    let ghost mid = info_views(out@);
                    let mut k: usize = 0;
                    while k < register.probe_kinds.len()
                        invariant
                            r < registers@.len(),
                            (*index, *register) == registers@[r as int],
                            k <= register.probe_kinds@.len(),
                            mid == before + matches_of_node(*node, n as int, registers@, r as int),
                            info_views(out@) == mid + matches_of_register(*node, n as int, registers@, r as int, k as int),
                        decreases register.probe_kinds@.len() - k,
                    {
                        if compatible_with(node, &register.probe_kinds[k]) {
                            let ghost old_out = out@;
                            out.push(ProbeFdtInfo {
                                name: register.name.clone(),
                                node: n,
                                register_index: *index,
                                register: r,
                                kind: k,
                            });
                            assert(info_views(out@) =~= info_views(old_out).push(out@.last()@));
                        }
                        k = k + 1;
                    }
                    assert(matches_of_node(*node, n as int, registers@, r + 1) =~= matches_of_node(*node, n as int, registers@, r as int) + matches_of_register(*node, n as int, registers@, r as int, register.probe_kinds@.len() as int));
                    r = r + 1;
                }
            }
            assert(matches_of_tree(nodes@, registers@, n + 1) =~= matches_of_tree(nodes@, registers@, n as int) + if nodes@[n as int].disabled {
                Seq::<ProbeFdtInfoView>::empty()
            } else {
                matches_of_node(nodes@[n as int], n as int, registers@, registers@.len() as int)
            });
            n = n + 1;
        }
        out
    }
}

proof fn lemma_parsed_irqs_len(results: Seq<Result<IrqConfig, IrqParseError>>)
    ensures
        parsed_irqs(results).len() <= results.len(),
    decreases results.len(),
{
    if results.len() > 0 {
        lemma_parsed_irqs_len(results.drop_last());
    }
}

proof fn lemma_parsed_irqs_all_err(results: Seq<Result<IrqConfig, IrqParseError>>)
    requires
        forall|i: int| 0 <= i < results.len() ==> (#[trigger] results[i]) is Err,
    ensures
        parsed_irqs(results).len() == 0,
    decreases results.len(),
{
    if results.len() > 0 {
        lemma_parsed_irqs_all_err(results.drop_last());
    }
}

proof fn lemma_register_nodes(node: FdtNode, n: int, regs: Seq<(usize, DriverRegister)>, r: int, k: int)
    ensures
        forall|i: int| 0 <= i < matches_of_register(node, n, regs, r, k).len()
            ==> (#[trigger] matches_of_register(node, n, regs, r, k)[i]).node == n as usize,
    decreases k,
{
    if k > 0 {
        lemma_register_nodes(node, n, regs, r, k - 1);
        let prev = matches_of_register(node, n, regs, r, k - 1);
        let cur = matches_of_register(node, n, regs, r, k);
        assert forall|i: int| 0 <= i < cur.len() implies (#[trigger] cur[i]).node == n as usize by {
            if i < prev.len() {
                assert(cur[i] == prev[i]);
            }
        }
    }
}

proof fn lemma_node_nodes(node: FdtNode, n: int, regs: Seq<(usize, DriverRegister)>, r: int)
    ensures
        forall|i: int| 0 <= i < matches_of_node(node, n, regs, r).len()
            ==> (#[trigger] matches_of_node(node, n, regs, r)[i]).node == n as usize,
    decreases r,
{
    if r > 0 {
        let kinds = regs[r - 1].1.probe_kinds@.len() as int;
        lemma_node_nodes(node, n, regs, r - 1);
        lemma_register_nodes(node, n, regs, r - 1, kinds);
        let prev = matches_of_node(node, n, regs, r - 1);
        let cur = matches_of_node(node, n, regs, r);
        assert forall|i: int| 0 <= i < cur.len() implies (#[trigger] cur[i]).node == n as usize by {
            if i < prev.len() {
                assert(cur[i] == prev[i]);
            } else {
                assert(cur[i] == matches_of_register(node, n, regs, r - 1, kinds)[i - prev.len()]);
            }
        }
    }
}

proof fn lemma_trace_step<I, T, P>(
    before: Seq<ProbedDevice<I, T, P>>,
    all: Seq<ProbedDevice<I, T, P>>,
    out: Seq<ProbedDevice<I, T, P>>,
    trace: Seq<Map<u32, DeviceId>>,
    starts: Seq<int>,
    ids0: Map<u32, DeviceId>,
    ids1: Map<u32, DeviceId>,
    pv: Seq<ProbeFdtInfoView>,
    nodes: Seq<FdtNode>,
    i: int,
    irqs: Seq<IrqConfig>,
)
    requires
        0 <= i < pv.len(),
        pass_trace(before, trace, starts, pv, nodes, i),
        forall|k: int| 0 <= k < all.len() ==> (#[trigger] all[k]).descriptor.irqs@ == irqs,
        trace[i] == ids0,
        out == before + all,
        forall|k: int| 0 <= k < all.len() ==> {
            &&& (#[trigger] all[k]).register_id == pv[i].register_index
            &&& all[k].descriptor.name@ == pv[i].name
            &&& all[k].dev is Intc ==> nodes[pv[i].node as int].phandle is Some
            &&& !(all[k].dev is Intc) ==> all[k].descriptor.irq_parent == irq_parent_spec(
                ids0,
                nodes[pv[i].node as int],
            )
        },
        (forall|k: int| 0 <= k < all.len() ==> !(#[trigger] all[k].dev is Intc)) ==> ids1 == ids0,
        nodes[pv[i].node as int].phandle matches Some(ph) ==> ids1.remove(ph) == ids0.remove(ph),
        forall|k: int|
            0 <= k < all.len() && (#[trigger] all[k].dev) is Intc && (forall|m: int|
                k < m < all.len() ==> !(all[m].dev is Intc)) ==> ids1.contains_key(nodes[pv[i].node as int].phandle->0)
                && ids1[nodes[pv[i].node as int].phandle->0] == all[k].descriptor.device_id,
    ensures
        pass_trace(out, trace.push(ids1), starts.push(out.len() as int), pv, nodes, i + 1),
{
    let start = before.len() as int;
    let tr2 = trace.push(ids1);
    let st2 = starts.push(out.len() as int);
    let ph = nodes[pv[i].node as int].phandle;
    assert(st2[i] == start);
    assert forall|j: int| 0 <= j <= i + 1 implies 0 <= #[trigger] st2[j] <= st2[i + 1] by {
        if j <= i {
            assert(st2[j] == starts[j]);
        }
    }
    assert forall|j: int, a: int, b: int|
        0 <= j < i + 1 && #[trigger] in_group(st2, j, a) && #[trigger] in_group(st2, j, b)
            implies out[a].descriptor.irqs@ == out[b].descriptor.irqs@ by {
        if j < i {
            assert(in_group(starts, j, a) && in_group(starts, j, b));
            assert(starts[j + 1] <= starts[i]);
            assert(out[a] == before[a] && out[b] == before[b]);
        } else {
            assert(out[a] == all[a - start] && out[b] == all[b - start]);
        }
    }
    assert forall|j: int| 0 <= j < i + 1 implies #[trigger] st2[j] <= st2[j + 1] by {
        if j < i {
            assert(starts[j] <= starts[j + 1]);
        }
    }
    assert forall|j: int, a: int| 0 <= j < i + 1 && #[trigger] in_group(st2, j, a) implies {
        &&& out[a].register_id == pv[j].register_index
        &&& out[a].descriptor.name@ == pv[j].name
        &&& out[a].dev is Intc ==> nodes[pv[j].node as int].phandle is Some
        &&& !(out[a].dev is Intc) ==> out[a].descriptor.irq_parent == irq_parent_spec(
            tr2[j],
            nodes[pv[j].node as int],
        )
    } by {
        if j < i {
            assert(in_group(starts, j, a));
            assert(starts[j + 1] <= starts[i]);
            assert(out[a] == before[a]);
        } else {
            assert(out[a] == all[a - start]);
        }
    }
    assert forall|j: int| 0 <= j < i + 1 implies {
        let phj = nodes[pv[j].node as int].phandle;
        &&& (forall|a: int| in_group(st2, j, a) ==> !(#[trigger] out[a].dev is Intc)) ==> tr2[j + 1]
            == #[trigger] tr2[j]
        &&& phj is Some ==> tr2[j + 1].remove(phj->0) == tr2[j].remove(phj->0)
        &&& forall|a: int|
            #[trigger] in_group(st2, j, a) && out[a].dev is Intc && (forall|b: int|
                a < b < st2[j + 1] ==> !(out[b].dev is Intc)) ==> tr2[j + 1].contains_key(phj->0)
                && tr2[j + 1][phj->0] == out[a].descriptor.device_id
    } by {
        let phj = nodes[pv[j].node as int].phandle;
        if j < i {
            assert(starts[j + 1] <= starts[i]);
            assert(tr2[j] == trace[j] && tr2[j + 1] == trace[j + 1]);
            assert forall|a: int| in_group(st2, j, a) == in_group(starts, j, a) by {}
            if forall|a: int| in_group(st2, j, a) ==> !(#[trigger] out[a].dev is Intc) {
                assert forall|a: int| in_group(starts, j, a) implies !(#[trigger] before[a].dev is Intc) by {
                    assert(in_group(st2, j, a));
                    assert(out[a] == before[a]);
                }
            }
            assert forall|a: int|
                #[trigger] in_group(st2, j, a) && out[a].dev is Intc && (forall|b: int|
                    a < b < st2[j + 1] ==> !(out[b].dev is Intc)) implies tr2[j + 1].contains_key(phj->0)
                    && tr2[j + 1][phj->0] == out[a].descriptor.device_id by {
                assert(in_group(starts, j, a));
                assert(out[a] == before[a]);
                assert forall|b: int| a < b < starts[j + 1] implies !(before[b].dev is Intc) by {
                    assert(out[b] == before[b]);
                }
            }
        } else {
            assert(tr2[j] == ids0 && tr2[j + 1] == ids1);
            if forall|a: int| in_group(st2, j, a) ==> !(#[trigger] out[a].dev is Intc) {
                assert forall|k: int| 0 <= k < all.len() implies !(#[trigger] all[k].dev is Intc) by {
                    assert(in_group(st2, j, start + k));
                    assert(out[start + k] == all[k]);
                }
            }
            assert forall|a: int|
                #[trigger] in_group(st2, j, a) && out[a].dev is Intc && (forall|b: int|
                    a < b < st2[j + 1] ==> !(out[b].dev is Intc)) implies tr2[j + 1].contains_key(phj->0)
                    && tr2[j + 1][phj->0] == out[a].descriptor.device_id by {
                let k = a - start;
                assert(out[a] == all[k]);
                assert forall|m: int| k < m < all.len() implies !(#[trigger] all[m].dev is Intc) by {
                    assert(out[start + m] == all[m]);
                    assert(in_group(st2, j, start + m));
                }
            }
        }
    }
}

proof fn lemma_tables_step<F>(
    o_ids: Map<u32, DeviceId>,
    o_parsers: Map<u32, F>,
    m_ids: Map<u32, DeviceId>,
    m_parsers: Map<u32, F>,
    n_ids: Map<u32, DeviceId>,
    n_parsers: Map<u32, F>,
    pv: Seq<ProbeFdtInfoView>,
    nodes: Seq<FdtNode>,
    i: int,
)
    requires
        tables_kept_outside(o_ids, o_parsers, m_ids, m_parsers, pv, nodes),
        0 <= i < pv.len(),
        nodes[pv[i].node as int].phandle is None ==> n_ids == m_ids && n_parsers == m_parsers,
        nodes[pv[i].node as int].phandle matches Some(ph) ==> n_ids.remove(ph) == m_ids.remove(ph)
            && n_parsers.remove(ph) == m_parsers.remove(ph),
    ensures
        tables_kept_outside(o_ids, o_parsers, n_ids, n_parsers, pv, nodes),
{
    assert forall|p: u32|
        #![trigger n_ids.contains_key(p)]
        #![trigger n_parsers.contains_key(p)]
        (forall|j: int| 0 <= j < pv.len() ==> nodes[pv[j].node as int].phandle != Some(p)) implies {
        &&& n_ids.contains_key(p) == o_ids.contains_key(p)
        &&& o_ids.contains_key(p) ==> n_ids[p] == o_ids[p]
        &&& n_parsers.contains_key(p) == o_parsers.contains_key(p)
        &&& o_parsers.contains_key(p) ==> n_parsers[p] == o_parsers[p]
    } by {
        assert(nodes[pv[i].node as int].phandle != Some(p));
        assert(m_ids.contains_key(p) == o_ids.contains_key(p));
        assert(m_parsers.contains_key(p) == o_parsers.contains_key(p));
        if nodes[pv[i].node as int].phandle is Some {
            let ph = nodes[pv[i].node as int].phandle->0;
            assert(p != ph);
            assert(n_ids.remove(ph).contains_key(p) == m_ids.remove(ph).contains_key(p));
            assert(n_parsers.remove(ph).contains_key(p) == m_parsers.remove(ph).contains_key(p));
            if m_ids.contains_key(p) {
                assert(n_ids.remove(ph)[p] == m_ids.remove(ph)[p]);
            }
            if m_parsers.contains_key(p) {
                assert(n_parsers.remove(ph)[p] == m_parsers.remove(ph)[p]);
            }
        }
    }
}

/// Every pending probe of the first `n` nodes names one of them, and an enabled one.
pub proof fn lemma_tree_nodes(nodes: Seq<FdtNode>, regs: Seq<(usize, DriverRegister)>, n: int)
    requires
        0 <= n <= nodes.len(),
        nodes.len() <= usize::MAX,
    ensures
        forall|i: int| 0 <= i < matches_of_tree(nodes, regs, n).len() ==> {
            let e = #[trigger] matches_of_tree(nodes, regs, n)[i];
            &&& e.node < n
            &&& !nodes[e.node as int].disabled
        },
    decreases n,
{
    if n > 0 {
        lemma_tree_nodes(nodes, regs, n - 1);
        lemma_node_nodes(nodes[n - 1], n - 1, regs, regs.len() as int);
        let prev = matches_of_tree(nodes, regs, n - 1);
        let cur = matches_of_tree(nodes, regs, n);
        assert forall|i: int| 0 <= i < cur.len() implies ({
            let e = #[trigger] cur[i];
            &&& e.node < n
            &&& !nodes[e.node as int].disabled
        }) by {
            if i < prev.len() {
                assert(cur[i] == prev[i]);
            } else {
                assert(!nodes[n - 1].disabled);
                assert(cur[i] == matches_of_node(nodes[n - 1], n - 1, regs, regs.len() as int)[i - prev.len()]);
            }
        }
    }
}

/// A node whose status is disabled is never probed: no pending probe names it.
pub proof fn lemma_disabled_node_not_probed(nodes: Seq<FdtNode>, regs: Seq<(usize, DriverRegister)>, d: int)
    requires
        0 <= d < nodes.len(),
        nodes.len() <= usize::MAX,
        nodes[d].disabled,
    ensures
        forall|i: int| 0 <= i < matches_of_tree(nodes, regs, nodes.len() as int).len()
            ==> (#[trigger] matches_of_tree(nodes, regs, nodes.len() as int)[i]).node != d,
{
    lemma_tree_nodes(nodes, regs, nodes.len() as int);
}

/// Parent lookup and interrupt filtering, as `resolve_irqs` states them: a table
/// holding `controller` under `p` resolves a node naming `p` to `controller`, and a
/// single parsed entry is kept as the one interrupt.
pub proof fn lemma_parent_registered_first(
    ids: Map<u32, DeviceId>,
    p: u32,
    controller: DeviceId,
    node: FdtNode,
    cfg: IrqConfig,
)
    requires
        node.interrupt_parent == Some(p),
    ensures
        irq_parent_spec(ids.insert(p, controller), node) == Some(controller),
        parsed_irqs(seq![Ok(cfg)]) == seq![cfg],
{
    let s = seq![Ok::<IrqConfig, IrqParseError>(cfg)];
    assert(s.drop_last() =~= Seq::<Result<IrqConfig, IrqParseError>>::empty());
    assert(parsed_irqs(s.drop_last()) =~= Seq::<IrqConfig>::empty());
    assert(s.last() == Ok::<IrqConfig, IrqParseError>(cfg));
    assert(parsed_irqs(s) =~= seq![cfg]);
}

/// Parent lookup and interrupt filtering, as `resolve_irqs` states them: a table
/// without `p` resolves a node naming `p` to no parent, and a failed entry is
/// dropped from the interrupts.
pub proof fn lemma_parent_registered_later(
    ids: Map<u32, DeviceId>,
    p: u32,
    node: FdtNode,
    e: IrqParseError,
)
    requires
        node.interrupt_parent == Some(p),
        !ids.contains_key(p),
    ensures
        irq_parent_spec(ids, node) is None,
        parsed_irqs(seq![Err(e)]).len() == 0,
{
    let s = seq![Err::<IrqConfig, IrqParseError>(e)];
    assert(s.drop_last() =~= Seq::<Result<IrqConfig, IrqParseError>>::empty());
    assert(parsed_irqs(s.drop_last()) =~= Seq::<IrqConfig>::empty());
    assert(s.last() is Err);
}


proof fn lemma_trace_keeps<I, T, P>(
    out: Seq<ProbedDevice<I, T, P>>,
    trace: Seq<Map<u32, DeviceId>>,
    starts: Seq<int>,
    pending: Seq<ProbeFdtInfoView>,
    nodes: Seq<FdtNode>,
    j: int,
    ph: u32,
    id: DeviceId,
    m: int,
)
    requires
        pass_trace(out, trace, starts, pending, nodes, pending.len() as int),
        0 <= j < m <= pending.len(),
        trace[j + 1].contains_key(ph) && trace[j + 1][ph] == id,
        forall|q: int| j < q < m ==> nodes[(#[trigger] pending[q]).node as int].phandle != Some(ph),
    ensures
        trace[m].contains_key(ph) && trace[m][ph] == id,
    decreases m - j,
{
    if m > j + 1 {
        let q = m - 1;
        lemma_trace_keeps(out, trace, starts, pending, nodes, j, ph, id, q);
        assert(nodes[pending[q].node as int].phandle != Some(ph));
        let phq = nodes[pending[q].node as int].phandle;
        assert(trace[q] == trace[q]);
        if phq is Some {
            assert(trace[q + 1].remove(phq->0) == trace[q].remove(phq->0));
            assert(trace[q].remove(phq->0).contains_key(ph));
            assert(trace[q + 1].remove(phq->0)[ph] == trace[q].remove(phq->0)[ph]);
        } else {
            assert forall|a: int| in_group(starts, q, a) implies !(#[trigger] out[a].dev is Intc) by {
                if out[a].dev is Intc {
                    assert(nodes[pending[q].node as int].phandle is Some);
                }
            }
        }
    }
}

/// Within a pass, the last controller registered for a node with phandle `p` is the
/// interrupt parent of every non-controller found afterwards for a node that names `p`
/// as its interrupt parent, as long as no other node with phandle `p` is probed in
/// between: a registration is visible to the rest of the pass at once.
pub proof fn lemma_controller_visible_later<I, T, P>(
    out: Seq<ProbedDevice<I, T, P>>,
    trace: Seq<Map<u32, DeviceId>>,
    starts: Seq<int>,
    pending: Seq<ProbeFdtInfoView>,
    nodes: Seq<FdtNode>,
    j: int,
    a: int,
    l: int,
    b: int,
)
    requires
        pass_trace(out, trace, starts, pending, nodes, pending.len() as int),
        0 <= j < l < pending.len(),
        in_group(starts, j, a),
        out[a].dev is Intc,
        forall|c: int| a < c < starts[j + 1] ==> !(#[trigger] out[c].dev is Intc),
        forall|q: int| j < q < l ==> nodes[(#[trigger] pending[q]).node as int].phandle != nodes[pending[j].node as int].phandle,
        in_group(starts, l, b),
        !(out[b].dev is Intc),
        nodes[pending[l].node as int].interrupt_parent == nodes[pending[j].node as int].phandle,
    ensures
        out[b].descriptor.irq_parent == Some(out[a].descriptor.device_id),
{
    assert(nodes[pending[j].node as int].phandle is Some);
    let ph = nodes[pending[j].node as int].phandle->0;
    assert(trace[j + 1].contains_key(ph) && trace[j + 1][ph] == out[a].descriptor.device_id);
    lemma_trace_keeps(out, trace, starts, pending, nodes, j, ph, out[a].descriptor.device_id, l);
}

} // verus!
