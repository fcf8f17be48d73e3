//! Resolving a patch: port names, wires, dependency order, the sink and the global config.

use vstd::prelude::*;
use crate::float::{FloatOp, apply32, eval, eval32, is_float_unit};
use crate::graph::{cyclic, dependency_order, topo_sort};
use crate::model::{Node, ParamView, Params, Patch, number, settings, whole};
use crate::module::{DescView, Inputs, InputsView, ModuleDesc, ModuleType, PortDesc, Registry, SourceError, SourceType, arity, port_names};
use crate::numbers::{Arithmetic, calculates64, finite64, lemma_two_to, reads_integers, size, stands_for, two_to, value, value64};
use crate::table::value_of;
use crate::text::{decimal, digits, joined, joined3, law_digits_spell_the_number, number_of, same, spelled, spelled_lists};
use crate::wiring::{FaultView, Hop, Net, WireFault, all_producers, edges_of, hop_edges, hop_in, last_producer, node_ids, resolve_wires, resolved_wires};

verus! {

/// Why a patch cannot be compiled.
#[derive(Debug)]
pub enum EngineError {
    Build { node: String, msg: String },
    UnknownNode(String),
    UnknownPort { node: String, port: String },
    NoAudioOutput,
    MultipleSources,
    Cycle,
    /// The voice source could not be made.
    Source(SourceError),
    /// The plan would not fit a buffer that `u32` offsets can address.
    TooLarge,
}

/// The contents of an [`EngineError`].
#[verifier::ext_equal]
pub enum ErrorView {
    Build { node: Seq<char>, msg: Seq<char> },
    UnknownNode(Seq<char>),
    UnknownPort { node: Seq<char>, port: Seq<char> },
    NoAudioOutput,
    MultipleSources,
    Cycle,
    Source(SourceError),
    TooLarge,
}

impl View for EngineError {
    type V = ErrorView;

    open spec fn view(&self) -> ErrorView {
        match self {
            EngineError::Build { node, msg } => ErrorView::Build { node: node@, msg: msg@ },
            EngineError::UnknownNode(n) => ErrorView::UnknownNode(n@),
            EngineError::UnknownPort { node, port } => ErrorView::UnknownPort {
                node: node@,
                port: port@,
            },
            EngineError::NoAudioOutput => ErrorView::NoAudioOutput,
            EngineError::MultipleSources => ErrorView::MultipleSources,
            EngineError::Cycle => ErrorView::Cycle,
            EngineError::Source(e) => ErrorView::Source(*e),
            EngineError::TooLarge => ErrorView::TooLarge,
        }
    }
}

/// The error as shown to the user.
pub open spec fn error_text(e: ErrorView) -> Seq<char> {
    match e {
        ErrorView::Build { node, msg } => "node '"@ + node + "': "@ + msg,
        ErrorView::UnknownNode(n) => "wire references unknown node '"@ + n + "'"@,
        ErrorView::UnknownPort { node, port } => "node '"@ + node + "' has no port '"@ + port
            + "'"@,
        ErrorView::NoAudioOutput => "patch has no audio_output node"@,
        ErrorView::MultipleSources =>
            "patch has more than one voice source (not yet supported)"@,
        ErrorView::Cycle => "patch graph has a cycle (feedback is not yet supported)"@,
        ErrorView::Source(SourceError::Other(msg)) => msg@,
        ErrorView::Source(SourceError::PermissionDenied(_)) =>
            "the voice source was denied an OS permission"@,
        ErrorView::TooLarge => "patch is too large for one plan"@,
    }
}

impl EngineError {
    /// The error as shown to the user.
    pub fn message(&self) -> (text: String)
        ensures
            text@ == error_text(self@),
    {
        match self {
            EngineError::Build { node, msg } => {
                let head: String = joined3("node '", node.as_str(), "': ");
                joined(head.as_str(), msg.as_str())
            },
            EngineError::UnknownNode(n) => joined3(
                "wire references unknown node '",
                n.as_str(),
                "'",
            ),
            EngineError::UnknownPort { node, port } => {
                let head: String = joined3("node '", node.as_str(), "' has no port '");
                joined3(head.as_str(), port.as_str(), "'")
            },
            EngineError::NoAudioOutput => "patch has no audio_output node".to_owned(),
            EngineError::MultipleSources =>
                "patch has more than one voice source (not yet supported)".to_owned(),
            EngineError::Cycle =>
                "patch graph has a cycle (feedback is not yet supported)".to_owned(),
            EngineError::Source(SourceError::Other(msg)) => msg.clone(),
            EngineError::Source(SourceError::PermissionDenied(_)) =>
                "the voice source was denied an OS permission".to_owned(),
            EngineError::TooLarge => "patch is too large for one plan".to_owned(),
        }
    }
}

/// Index of the first node from `i` on that is an audio output.
pub open spec fn sink_from(nodes: Seq<Node>, i: int) -> Option<int>
    decreases nodes.len() - i,
{
    if i >= nodes.len() {
        None
    } else if nodes[i].ty@ == "audio_output"@ {
        Some(i)
    } else {
        sink_from(nodes, i + 1)
    }
}

/// Number of output channels: the `channels` param (2 if there is none), but at least 1.
pub open spec fn channel_count<F: Fn(FloatOp) -> u64>(
    settings: Map<Seq<char>, ParamView>,
    fp: F,
) -> usize {
    match value_of(settings, "channels"@) {
        Some(v) => match whole(v, fp) {
            Some(c) => if c < 1 {
                1
            } else {
                c as usize
            },
            None => 2,
        },
        None => 2,
    }
}

/// 44100 in double precision.
pub const DEFAULT_RATE: u64 = 0x40E5_8880_0000_0000;

/// The sample rate: the `sample_rate` param, or 44100.
pub open spec fn rate<F: Fn(FloatOp) -> u64>(settings: Map<Seq<char>, ParamView>, fp: F) -> u32 {
    let x = match value_of(settings, "sample_rate"@) {
        Some(v) => match number(v, fp) {
            Some(x) => x,
            None => DEFAULT_RATE,
        },
        None => DEFAULT_RATE,
    };
    eval32(fp, FloatOp::F64ToF32(x))
}

/// The names of the sink's inputs: `ch0`, `ch1`, ..
pub open spec fn channel_names(channels: int) -> Seq<Seq<char>> {
    Seq::new(channels as nat, |c: int| "ch"@ + digits(c))
}

/// What a node's type says of its ports; a voice source comes before a module of the same id.
pub open spec fn node_desc<M: ModuleType, S: SourceType>(
    registry: Registry<M, S>,
    node: Node,
) -> Option<DescView> {
    match value_of(registry.sources(), node.ty@) {
        Some(e) => Some(e.source.desc(settings(node.params))),
        None => match value_of(registry.modules(), node.ty@) {
            Some(e) => Some(e.module.desc(settings(node.params))),
            None => None,
        },
    }
}

/// The names of declared inputs.
pub open spec fn input_names(inputs: InputsView) -> Seq<Seq<char>> {
    match inputs {
        InputsView::Fixed(names) => names,
        InputsView::Variadic(name) => seq![name],
    }
}

/// Index of the first node from `i` on, the sink aside, whose type is not registered.
pub open spec fn unknown_from<M: ModuleType, S: SourceType>(
    registry: Registry<M, S>,
    nodes: Seq<Node>,
    sink: int,
    i: int,
) -> Option<int>
    decreases nodes.len() - i,
{
    if i >= nodes.len() {
        None
    } else if i != sink && node_desc(registry, nodes[i]) is None {
        Some(i)
    } else {
        unknown_from(registry, nodes, sink, i + 1)
    }
}

/// What the wires of a patch are resolved against.
pub open spec fn net_of<M: ModuleType, S: SourceType>(
    registry: Registry<M, S>,
    nodes: Seq<Node>,
    sink: int,
    channels: int,
) -> Net {
    Net {
        ids: node_ids(nodes),
        ins: Seq::new(
            nodes.len(),
            |i: int|
                if i == sink {
                    channel_names(channels)
                } else {
                    input_names((node_desc(registry, nodes[i])->0).inputs)
                },
        ),
        outs: Seq::new(
            nodes.len(),
            |i: int|
                if i == sink {
                    Seq::empty()
                } else {
                    (node_desc(registry, nodes[i])->0).outputs
                },
        ),
    }
}

/// The node's one input port repeats.
pub open spec fn is_variadic<M: ModuleType, S: SourceType>(
    registry: Registry<M, S>,
    nodes: Seq<Node>,
    sink: int,
    i: int,
) -> bool {
    i != sink && (node_desc(registry, nodes[i])->0).inputs is Variadic
}

/// The (producer node, producer output port) of each materialized input of a node, or `None`. The
/// last wire to a fixed port counts. A variadic port materializes one input per wire, and one
/// unconnected input if there is no wire.
pub open spec fn producers(
    hops: Seq<Hop>,
    node: int,
    num_ports: int,
    variadic: bool,
) -> Seq<Option<(usize, usize)>> {
    let n = hops.len() as int;
    if variadic {
        let all = all_producers(hops, n, node);
        if all.len() == 0 {
            seq![None]
        } else {
            all
        }
    } else {
        Seq::new(num_ports as nat, |p: int| last_producer(hops, n, node, p))
    }
}

/// The error that a wire's fault gives.
pub open spec fn wire_error(fault: FaultView) -> ErrorView {
    match fault {
        FaultView::UnknownNode(n) => ErrorView::UnknownNode(n),
        FaultView::UnknownPort { node, port } => ErrorView::UnknownPort { node, port },
    }
}

/// What is wrong with a patch, if anything is: no sink; else the first node of an unknown type;
/// else the first wire that cannot be resolved; else a cycle.
pub open spec fn patch_fault<M: ModuleType, S: SourceType, F: Fn(FloatOp) -> u64>(
    patch: Patch,
    registry: Registry<M, S>,
    fp: F,
) -> Option<ErrorView> {
    let nodes = patch.nodes@;
    match sink_from(nodes, 0) {
        None => Some(ErrorView::NoAudioOutput),
        Some(sink) => {
            let channels = channel_count(settings(nodes[sink].params), fp) as int;
            let net = net_of(registry, nodes, sink, channels);
            match unknown_from(registry, nodes, sink, 0) {
                Some(i) => Some(
                    ErrorView::Build {
                        node: nodes[i].id@,
                        msg: "unknown module type '"@ + nodes[i].ty@ + "'"@,
                    },
                ),
                None => match resolved_wires(net, patch.wires@, patch.wires@.len() as int) {
                    Err(fault) => Some(wire_error(fault)),
                    Ok(hops) => if cyclic(hop_edges(hops)) {
                        Some(ErrorView::Cycle)
                    } else {
                        None
                    },
                },
            }
        },
    }
}

/// The hops of a patch without faults.
pub open spec fn patch_hops<M: ModuleType, S: SourceType, F: Fn(FloatOp) -> u64>(
    patch: Patch,
    registry: Registry<M, S>,
    fp: F,
) -> Seq<Hop> {
    let nodes = patch.nodes@;
    let sink = sink_from(nodes, 0)->0;
    let channels = channel_count(settings(nodes[sink].params), fp) as int;
    let net = net_of(registry, nodes, sink, channels);
    resolved_wires(net, patch.wires@, patch.wires@.len() as int)->Ok_0
}

/// Wires resolved against node port names.
pub struct Resolved {
    /// Per node, per materialized input: the (producer node, producer output port), or `None`.
    pub in_srcs: Vec<Vec<Option<(usize, usize)>>>,
    /// Per node: number of output ports.
    pub out_counts: Vec<usize>,
    pub order: Vec<usize>,
    pub sink: usize,
    pub channels: usize,
    pub sample_rate: u32,
}

/// `r` is what the patch resolves to.
pub open spec fn resolves_to<M: ModuleType, S: SourceType, F: Fn(FloatOp) -> u64>(
    patch: Patch,
    registry: Registry<M, S>,
    fp: F,
    r: Resolved,
) -> bool {
    let nodes = patch.nodes@;
    let n = nodes.len() as int;
    let hops = patch_hops(patch, registry, fp);
    let net = net_of(registry, nodes, r.sink as int, r.channels as int);
    &&& sink_from(nodes, 0) == Some(r.sink as int)
    &&& r.sink < n
    &&& r.channels == channel_count(settings(nodes[r.sink as int].params), fp)
    &&& r.sample_rate == rate(settings(nodes[r.sink as int].params), fp)
    &&& r.in_srcs.len() == n
    &&& forall|i: int|
        0 <= i < n ==> (#[trigger] r.in_srcs@[i])@ == producers(
            hops,
            i,
            net.ins[i].len() as int,
            is_variadic(registry, nodes, r.sink as int, i),
        )
    &&& r.out_counts.len() == n
    &&& forall|i: int| 0 <= i < n ==> #[trigger] r.out_counts@[i] == net.outs[i].len()
    &&& dependency_order(r.order@, hop_edges(hops), n)
    &&& forall|k: int| 0 <= k < hops.len() ==> hop_in(net, #[trigger] hops[k])
}

/// Every registered type can be used.
pub open spec fn registry_ready<M: ModuleType, S: SourceType>(registry: Registry<M, S>) -> bool {
    &&& forall|id: Seq<char>| #[trigger]
        registry.modules().dom().contains(id) ==> registry.modules()[id].module.ready()
    &&& forall|id: Seq<char>| #[trigger]
        registry.sources().dom().contains(id) ==> registry.sources()[id].source.ready()
}

/// The module works on its initial state, its param block, and any suitable number of inputs.
pub open spec fn consistent_module<M: ModuleType>(
    module: M,
    settings: Map<Seq<char>, ParamView>,
) -> bool {
    forall|n: nat|
        arity(module.desc(settings).inputs, n) ==> #[trigger] module.fits(
            module.initial(settings).len(),
            module.block(settings).len(),
            n,
            module.desc(settings).outputs.len(),
        )
}

/// Every processing module of the patch is consistent.
pub open spec fn consistent_nodes<M: ModuleType, S: SourceType>(
    registry: Registry<M, S>,
    nodes: Seq<Node>,
    sink: int,
) -> bool {
    forall|i: int|
        0 <= i < nodes.len() && i != sink && !registry.sources().dom().contains(
            (#[trigger] nodes[i]).ty@,
        ) ==> registry.modules().dom().contains(nodes[i].ty@) && consistent_module(
            registry.modules()[nodes[i].ty@].module,
            settings(nodes[i].params),
        )
}

/// Looks the sink up.
pub(crate) fn find_sink(nodes: &Vec<Node>) -> (sink: Option<usize>)
    ensures
        match sink {
            Some(i) => sink_from(nodes@, 0) == Some(i as int) && i < nodes.len(),
            None => sink_from(nodes@, 0) is None,
        },
{
    let mut i: usize = 0;
    while i < nodes.len()
        invariant
            i <= nodes.len(),
            sink_from(nodes@, 0) == sink_from(nodes@, i as int),
        decreases nodes.len() - i,
    {
        if same(nodes[i].ty.as_str(), "audio_output") {
            return Some(i);
        }
        i = i + 1;
    }
    None
}

/// Reads the number of channels.
pub fn read_channels<F: Fn(FloatOp) -> u64>(params: &Params, fp: &F) -> (channels: usize)
    requires
        is_float_unit(*fp),
    ensures
        channels == channel_count(settings(*params), *fp),
{
    match params.get("channels") {
        Some(v) => match v.as_i64(fp) {
            Some(c) => if c < 1 {
                1
            } else {
                #[verifier::truncate]
                (c as usize)
            },
            None => 2,
        },
        None => 2,
    }
}

/// Reads the sample rate.
pub fn read_rate<F: Fn(FloatOp) -> u64>(params: &Params, fp: &F) -> (r: u32)
    requires
        is_float_unit(*fp),
    ensures
        r == rate(settings(*params), *fp),
{
    let x: u64 = match params.get("sample_rate") {
        Some(v) => match v.as_f64(fp) {
            Some(x) => x,
            None => DEFAULT_RATE,
        },
        None => DEFAULT_RATE,
    };
    apply32(fp, FloatOp::F64ToF32(x))
}

/// Spells the names of the sink's inputs.
pub fn name_channels(channels: usize) -> (names: Vec<String>)
    ensures
        spelled(names@) == channel_names(channels as int),
{
    let mut names: Vec<String> = Vec::new();
    let mut c: usize = 0;
    while c < channels
        invariant
            c <= channels,
            names.len() == c,
            forall|k: int| 0 <= k < c ==> (#[trigger] names@[k])@ == "ch"@ + digits(k),
        decreases channels - c,
    {
        let number: String = decimal(c);
        names.push(joined("ch", number.as_str()));
        c = c + 1;
    }
    assert(spelled(names@) =~= channel_names(channels as int));
    names
}

/// The names of a list of ports.
fn names_of(ports: &Vec<PortDesc>) -> (names: Vec<String>)
    ensures
        spelled(names@) == port_names(ports@),
{
    let mut names: Vec<String> = Vec::new();
    let mut i: usize = 0;
    while i < ports.len()
        invariant
            i <= ports.len(),
            names.len() == i,
            forall|k: int| 0 <= k < i ==> (#[trigger] names@[k])@ == ports@[k].name@,
        decreases ports.len() - i,
    {
        names.push(ports[i].name.clone());
        i = i + 1;
    }
    assert(spelled(names@) =~= port_names(ports@));
    names
}

/// The names of declared inputs.
fn input_names_of(inputs: &Inputs) -> (names: Vec<String>)
    ensures
        spelled(names@) == input_names(inputs@),
{
    match inputs {
        Inputs::Fixed(ports) => names_of(ports),
        Inputs::Variadic(port) => {
            let names: Vec<String> = vec![port.name.clone()];
            assert(spelled(names@) =~= seq![port.name@]);
            names
        },
    }
}

/// Asks a node's type for its ports.
fn describe_node<M: ModuleType, S: SourceType>(registry: &Registry<M, S>, node: &Node) -> (desc:
    Option<ModuleDesc>)
    requires
        registry_ready(*registry),
    ensures
        match desc {
            Some(d) => {
                &&& node_desc(*registry, *node) == Some(d@)
                &&& !registry.sources().dom().contains(node.ty@) ==> {
                    &&& registry.modules().dom().contains(node.ty@)
                    &&& consistent_module(
                        registry.modules()[node.ty@].module,
                        settings(node.params),
                    )
                }
            },
            None => node_desc(*registry, *node) is None,
        },
{
    match registry.source(node.ty.as_str()) {
        Some(e) => {
            assert(registry.sources().dom().contains(node.ty@));
            Some(e.source.describe(&node.params))
        },
        None => match registry.get(node.ty.as_str()) {
            Some(e) => {
                assert(registry.modules().dom().contains(node.ty@));
                Some(e.module.describe(&node.params))
            },
            None => None,
        },
    }
}

/// The ports of all nodes.
struct Ports {
    ins: Vec<Vec<String>>,
    outs: Vec<Vec<String>>,
    variadic: Vec<bool>,
}

/// Collects the ports of all nodes.
fn collect_ports<M: ModuleType, S: SourceType>(
    registry: &Registry<M, S>,
    nodes: &Vec<Node>,
    sink: usize,
    channels: usize,
) -> (res: Result<Ports, EngineError>)
    requires
        registry_ready(*registry),
        sink < nodes.len(),
    ensures
        match res {
            Ok(p) => {
                let net = net_of(*registry, nodes@, sink as int, channels as int);
                &&& unknown_from(*registry, nodes@, sink as int, 0) is None
                &&& spelled_lists(p.ins@) == net.ins
                &&& spelled_lists(p.outs@) == net.outs
                &&& p.variadic@.len() == nodes@.len()
                &&& forall|i: int|
                    0 <= i < nodes@.len() ==> #[trigger] p.variadic@[i] == is_variadic(
                        *registry,
                        nodes@,
                        sink as int,
                        i,
                    )
                &&& consistent_nodes(*registry, nodes@, sink as int)
            },
            Err(e) => match unknown_from(*registry, nodes@, sink as int, 0) {
                Some(i) => e@ == (ErrorView::Build {
                    node: nodes@[i].id@,
                    msg: "unknown module type '"@ + nodes@[i].ty@ + "'"@,
                }),
                None => false,
            },
        },
{
    let mut ins: Vec<Vec<String>> = Vec::new();
    let mut outs: Vec<Vec<String>> = Vec::new();
    let mut variadic: Vec<bool> = Vec::new();
    let ghost net = net_of(*registry, nodes@, sink as int, channels as int);
    let mut i: usize = 0;
    while i < nodes.len()
        invariant
            i <= nodes.len(),
            registry_ready(*registry),
            sink < nodes.len(),
            net == net_of(*registry, nodes@, sink as int, channels as int),
            unknown_from(*registry, nodes@, sink as int, 0) == unknown_from(
                *registry,
                nodes@,
                sink as int,
                i as int,
            ),
            ins.len() == i,
            outs.len() == i,
            variadic.len() == i,
            forall|k: int| 0 <= k < i ==> spelled((#[trigger] ins@[k])@) == net.ins[k],
            forall|k: int| 0 <= k < i ==> spelled((#[trigger] outs@[k])@) == net.outs[k],
            forall|k: int|
                0 <= k < i ==> #[trigger] variadic@[k] == is_variadic(
                    *registry,
                    nodes@,
                    sink as int,
                    k,
                ),
            forall|k: int|
                0 <= k < i && k != sink && !registry.sources().dom().contains(
                    (#[trigger] nodes@[k]).ty@,
                ) ==> registry.modules().dom().contains(nodes@[k].ty@) && consistent_module(
                    registry.modules()[nodes@[k].ty@].module,
                    settings(nodes@[k].params),
                ),
        decreases nodes.len() - i,
    {
        if i == sink {
            ins.push(name_channels(channels));
            let none: Vec<String> = Vec::new();
            assert(spelled(none@) =~= Seq::empty());
            outs.push(none);
            variadic.push(false);
        } else {
            match describe_node(registry, &nodes[i]) {
                Some(desc) => {
                    ins.push(input_names_of(&desc.inputs));
                    outs.push(names_of(&desc.outputs));
                    let repeats: bool = match &desc.inputs {
                        Inputs::Fixed(_) => false,
                        Inputs::Variadic(_) => true,
                    };
                    variadic.push(repeats);
                },
                None => {
                    let msg: String = joined3(
                        "unknown module type '",
                        nodes[i].ty.as_str(),
                        "'",
                    );
                    return Err(EngineError::Build { node: nodes[i].id.clone(), msg });
                },
            }
        }
        i = i + 1;
    }
    assert(spelled_lists(ins@) =~= net.ins);
    assert(spelled_lists(outs@) =~= net.outs);
    Ok(Ports { ins, outs, variadic })
}

/// The producers of one node's inputs.
pub(crate) fn collect_producers(hops: &Vec<Hop>, node: usize, num_ports: usize, variadic: bool) -> (srcs: Vec<
    Option<(usize, usize)>,
>)
    requires
        forall|k: int|
            0 <= k < hops@.len() && (#[trigger] hops@[k]).to == node ==> hops@[k].to_port
                < num_ports,
    ensures
        srcs@ == producers(hops@, node as int, num_ports as int, variadic),
{
    let mut srcs: Vec<Option<(usize, usize)>> = Vec::new();
    if !variadic {
        let mut p: usize = 0;
        while p < num_ports
            invariant
                p <= num_ports,
                srcs@ =~= Seq::new(p as nat, |i: int| None::<(usize, usize)>),
            decreases num_ports - p,
        {
            srcs.push(None);
            p = p + 1;
        }
    }
    let mut k: usize = 0;
    while k < hops.len()
        invariant
            k <= hops.len(),
            forall|k: int|
                0 <= k < hops@.len() && (#[trigger] hops@[k]).to == node ==> hops@[k].to_port
                    < num_ports,
            variadic ==> srcs@ == all_producers(hops@, k as int, node as int),
            !variadic ==> srcs@ =~= Seq::new(
                num_ports as nat,
                |p: int| last_producer(hops@, k as int, node as int, p),
            ),
        decreases hops.len() - k,
    {
        let hop = hops[k];
        if hop.to == node {
            if variadic {
                srcs.push(Some((hop.from, hop.from_port)));
            } else {
                srcs.set(hop.to_port, Some((hop.from, hop.from_port)));
            }
        }
        k = k + 1;
    }
    if variadic && srcs.len() == 0 {
        srcs.push(None);
        assert(srcs@ =~= seq![None::<(usize, usize)>]);
    }
    srcs
}

/// Resolve port names + wires + topological order; find the sink and global config.
pub fn resolve<M: ModuleType, S: SourceType, F: Fn(FloatOp) -> u64>(
    patch: &Patch,
    registry: &Registry<M, S>,
    fp: &F,
) -> (res: Result<Resolved, EngineError>)
    requires
        is_float_unit(*fp),
        registry_ready(*registry),
    ensures
        match res {
            Ok(r) => {
                &&& patch_fault(*patch, *registry, *fp) is None
                &&& resolves_to(*patch, *registry, *fp, r)
                &&& consistent_nodes(*registry, patch.nodes@, r.sink as int)
            },
            Err(e) => patch_fault(*patch, *registry, *fp) == Some(e@),
        },
{
    let sink: usize = match find_sink(&patch.nodes) {
        Some(sink) => sink,
        None => {
            return Err(EngineError::NoAudioOutput);
        },
    };
    let channels: usize = read_channels(&patch.nodes[sink].params, fp);
    let sample_rate: u32 = read_rate(&patch.nodes[sink].params, fp);
    let ports = match collect_ports(registry, &patch.nodes, sink, channels) {
        Ok(ports) => ports,
        Err(e) => {
            return Err(e);
        },
    };
    let n: usize = patch.nodes.len();
    let ghost net = net_of(*registry, patch.nodes@, sink as int, channels as int);
    proof {
        assert(ports.ins.len() == net.ins.len());
        assert(ports.outs.len() == net.outs.len());
    }
    let hops = match resolve_wires(&patch.nodes, &ports.ins, &ports.outs, &patch.wires) {
        Ok(hops) => hops,
        Err(WireFault::UnknownNode(node)) => {
            return Err(EngineError::UnknownNode(node));
        },
        Err(WireFault::UnknownPort { node, port }) => {
            return Err(EngineError::UnknownPort { node, port });
        },
    };
    let edges = edges_of(&hops);
    proof {
        assert forall|k: int| 0 <= k < edges@.len() implies (#[trigger] edges@[k]).0 < n
            && edges@[k].1 < n by {
            assert(hop_in(net, hops@[k]));
        }
    }
    let order = match topo_sort(n, &edges) {
        Ok(order) => order,
        Err(_) => {
            return Err(EngineError::Cycle);
        },
    };
    let mut in_srcs: Vec<Vec<Option<(usize, usize)>>> = Vec::new();
    let mut out_counts: Vec<usize> = Vec::new();
    let mut i: usize = 0;
    while i < n
        invariant
            i <= n,
            n == patch.nodes@.len(),
            sink < n,
            net == net_of(*registry, patch.nodes@, sink as int, channels as int),
            spelled_lists(ports.ins@) == net.ins,
            spelled_lists(ports.outs@) == net.outs,
            ports.variadic@.len() == n,
            forall|i: int|
                0 <= i < n ==> #[trigger] ports.variadic@[i] == is_variadic(
                    *registry,
                    patch.nodes@,
                    sink as int,
                    i,
                ),
            forall|k: int| 0 <= k < hops@.len() ==> hop_in(net, #[trigger] hops@[k]),
            in_srcs.len() == i,
            out_counts.len() == i,
            forall|k: int|
                0 <= k < i ==> (#[trigger] in_srcs@[k])@ == producers(
                    hops@,
                    k,
                    net.ins[k].len() as int,
                    is_variadic(*registry, patch.nodes@, sink as int, k),
                ),
            forall|k: int| 0 <= k < i ==> #[trigger] out_counts@[k] == net.outs[k].len(),
        decreases n - i,
    {
        proof {
            assert(ports.ins.len() == net.ins.len());
            assert(ports.outs.len() == net.outs.len());
            assert(net.ins[i as int] == spelled(ports.ins@[i as int]@));
            assert(net.outs[i as int] == spelled(ports.outs@[i as int]@));
            assert forall|k: int|
                0 <= k < hops@.len() && (#[trigger] hops@[k]).to == i implies hops@[k].to_port
                < ports.ins@[i as int]@.len() by {
                assert(hop_in(net, hops@[k]));
            }
        }
        in_srcs.push(collect_producers(&hops, i, ports.ins[i].len(), ports.variadic[i]));
        out_counts.push(ports.outs[i].len());
        i = i + 1;
    }
    Ok(Resolved { in_srcs, out_counts, order, sink, channels, sample_rate })
}

/// A variadic port that nothing is wired to materializes one input, and that input is unconnected:
/// it reads silence.
pub proof fn law_unwired_variadic_port_reads_silence(hops: Seq<Hop>, node: int, num_ports: int)
    requires
        forall|k: int| 0 <= k < hops.len() ==> (#[trigger] hops[k]).to != node,
    ensures
        producers(hops, node, num_ports, true) == seq![None::<(usize, usize)>],
{
    lemma_no_producers(hops, hops.len() as int, node);
}

proof fn lemma_no_producers(hops: Seq<Hop>, n: int, node: int)
    requires
        0 <= n <= hops.len(),
        forall|k: int| 0 <= k < hops.len() ==> (#[trigger] hops[k]).to != node,
    ensures
        all_producers(hops, n, node).len() == 0,
    decreases n,
{
    if n > 0 {
        lemma_no_producers(hops, n - 1, node);
    }
}

/// A variadic port materializes one input per wire, in the order of the wires.
pub proof fn law_variadic_port_has_one_input_per_wire(hops: Seq<Hop>, hop: Hop)
    ensures
        all_producers(hops.push(hop), hops.len() as int + 1, hop.to as int) == all_producers(
            hops,
            hops.len() as int,
            hop.to as int,
        ).push(Some((hop.from, hop.from_port))),
{
    lemma_producers_prefix(hops, hop, hops.len() as int, hop.to as int);
}

proof fn lemma_producers_prefix(hops: Seq<Hop>, hop: Hop, n: int, node: int)
    requires
        0 <= n <= hops.len(),
    ensures
        all_producers(hops.push(hop), n, node) == all_producers(hops, n, node),
    decreases n,
{
    if n > 0 {
        lemma_producers_prefix(hops, hop, n - 1, node);
        assert(hops.push(hop)[n - 1] == hops[n - 1]);
    }
}

/// The last wire to a fixed port counts.
pub proof fn law_last_wire_to_a_fixed_port_counts(hops: Seq<Hop>, hop: Hop, num_ports: int)
    requires
        hop.to_port < num_ports,
    ensures
        producers(hops.push(hop), hop.to as int, num_ports, false)[hop.to_port as int] == Some(
            (hop.from, hop.from_port),
        ),
{
    let all = hops.push(hop);
    assert(all[all.len() - 1] == hop);
    assert(last_producer(all, all.len() as int, hop.to as int, hop.to_port as int) == Some(
        (hop.from, hop.from_port),
    ));
}

/// The number of channels is the parameter, read as an integer, and never less than 1; without a
/// number there are two.
pub proof fn law_channels_are_the_parameter<F: Fn(FloatOp) -> u64>(
    settings: Map<Seq<char>, ParamView>,
    fp: F,
    n: int,
)
    requires
        1 <= n <= u32::MAX,
    ensures
        value_of(settings, "channels"@) == Some(ParamView::Int(n as i64)) ==> channel_count(
            settings,
            fp,
        ) == n,
        value_of(settings, "channels"@) matches Some(ParamView::Int(i)) ==> i < 1 ==> channel_count(
            settings,
            fp,
        ) == 1,
        value_of(settings, "channels"@) is None ==> channel_count(settings, fp) == 2,
        value_of(settings, "channels"@) matches Some(ParamView::Str(s)) ==> channel_count(
            settings,
            fp,
        ) == 2,
{
}

/// On a float unit that computes, the sample rate is the parameter in single precision, and 44100
/// without one.
pub proof fn law_rate_is_the_parameter<F: Fn(FloatOp) -> u64>(
    settings: Map<Seq<char>, ParamView>,
    fp: F,
    m: Arithmetic,
)
    requires
        calculates64(fp, m),
        reads_integers(fp),
        m.top >= 1048576 as real,
    ensures
        value_of(settings, "sample_rate"@) is None ==> value(rate(settings, fp)) == (m.round)(
            44100 as real,
        ),
        value_of(settings, "sample_rate"@) matches Some(ParamView::Int(i)) ==> 0 <= i <= 1048576
            ==> value(rate(settings, fp)) == (m.round)(i as int as real),
        value_of(settings, "sample_rate"@) matches Some(ParamView::Float(f)) ==> finite64(f)
            && size(value64(f)) <= m.top ==> value(rate(settings, fp)) == (m.round)(value64(f)),
{
    lemma_default_rate();
    if let Some(ParamView::Int(i)) = value_of(settings, "sample_rate"@) {
        if 0 <= i <= 1048576 {
            let x = eval(fp, FloatOp::I64ToF64(i));
            assert(finite64(x) && value64(x) == i as int as real);
            assert(stands_for(m, eval32(fp, FloatOp::F64ToF32(x)), value64(x)));
        }
    }
    if let Some(ParamView::Float(f)) = value_of(settings, "sample_rate"@) {
        if finite64(f) && size(value64(f)) <= m.top {
            assert(stands_for(m, eval32(fp, FloatOp::F64ToF32(f)), value64(f)));
        }
    }
    if value_of(settings, "sample_rate"@) is None {
        assert(stands_for(
            m,
            eval32(fp, FloatOp::F64ToF32(DEFAULT_RATE)),
            value64(DEFAULT_RATE),
        ));
    }
}

/// The rate without a parameter is 44100.
proof fn lemma_default_rate()
    ensures
        finite64(DEFAULT_RATE),
        value64(DEFAULT_RATE) == 44100 as real,
{
    lemma_two_to();
    assert(two_to(-25) == (1 as real) / (33554432 as real));
    assert(two_to(-26) == (1 as real) / (67108864 as real));
    assert(two_to(-27) == (1 as real) / (134217728 as real));
    assert(two_to(-28) == (1 as real) / (268435456 as real));
    assert(two_to(-29) == (1 as real) / (536870912 as real));
    assert(two_to(-30) == (1 as real) / (1073741824 as real));
    assert(two_to(-31) == (1 as real) / (2147483648 as real));
    assert(two_to(-32) == (1 as real) / (4294967296 as real));
    assert(two_to(-33) == (1 as real) / (8589934592 as real));
    assert(two_to(-34) == (1 as real) / (17179869184 as real));
    assert(two_to(-35) == (1 as real) / (34359738368 as real));
    assert(two_to(-36) == (1 as real) / (68719476736 as real));
    assert(two_to(-37) == (1 as real) / (137438953472 as real));
    let t = two_to(-37);
    let x = 6061057848115200 as real;
    assert((DEFAULT_RATE / 0x10_0000_0000_0000) % 0x800 == 1038);
    assert((DEFAULT_RATE % 0x10_0000_0000_0000) == 0x5_8880_0000_0000);
    assert(x * t == 44100 as real) by (nonlinear_arith)
        requires
            t == (1 as real) / (137438953472 as real),
            x == 6061057848115200 as real,
    ;
}

/// Channel `c` is the input `ch` with the number `c` behind it, and no two have the same name.
pub proof fn law_channel_names_are_numbered(channels: int, c: int, d: int)
    requires
        0 <= c < channels,
        0 <= d < channels,
    ensures
        channel_names(channels).len() == channels,
        channel_names(channels)[c].len() >= 3,
        channel_names(channels)[c] == "ch"@ + digits(c),
        number_of(digits(c)) == c,
        channel_names(channels)[c] == channel_names(channels)[d] ==> c == d,
{
    reveal_strlit("ch");
    law_digits_spell_the_number(c);
    law_digits_spell_the_number(d);
    let a = "ch"@ + digits(c);
    let b = "ch"@ + digits(d);
    if a == b {
        assert(digits(c) =~= a.skip(2));
        assert(digits(d) =~= b.skip(2));
    }
}

/// A wire to another port, or to another node, does not matter to a fixed port; and a port that no wire
/// leads to is unconnected.
pub proof fn law_other_wires_do_not_matter(hops: Seq<Hop>, hop: Hop, node: int, num_ports: int, port: int)
    requires
        0 <= port < num_ports,
        hop.to != node || hop.to_port != port,
    ensures
        producers(hops.push(hop), node, num_ports, false)[port] == producers(
            hops,
            node,
            num_ports,
            false,
        )[port],
        producers(Seq::empty(), node, num_ports, false)[port] is None,
        producers(hops, node, num_ports, false).len() == num_ports,
        hop.to != node ==> producers(hops.push(hop), node, num_ports, true) == producers(
            hops,
            node,
            num_ports,
            true,
        ),
{
    lemma_last_prefix(hops, hop, hops.len() as int, node, port);
    lemma_producers_prefix(hops, hop, hops.len() as int, node);
}

proof fn lemma_last_prefix(hops: Seq<Hop>, hop: Hop, n: int, node: int, port: int)
    requires
        0 <= n <= hops.len(),
    ensures
        last_producer(hops.push(hop), n, node, port) == last_producer(hops, n, node, port),
    decreases n,
{
    if n > 0 {
        lemma_last_prefix(hops, hop, n - 1, node, port);
        assert(hops.push(hop)[n - 1] == hops[n - 1]);
    }
}

/// The sink is the first node that is an audio output.
pub proof fn law_first_audio_output_is_the_sink(nodes: Seq<Node>, from: int)
    requires
        0 <= from <= nodes.len(),
    ensures
        match sink_from(nodes, from) {
            Some(i) => from <= i < nodes.len() && nodes[i].ty@ == "audio_output"@ && forall|k: int|
                from <= k < i ==> (#[trigger] nodes[k]).ty@ != "audio_output"@,
            None => forall|k: int|
                from <= k < nodes.len() ==> (#[trigger] nodes[k]).ty@ != "audio_output"@,
        },
    decreases nodes.len() - from,
{
    if from < nodes.len() && nodes[from].ty@ != "audio_output"@ {
        law_first_audio_output_is_the_sink(nodes, from + 1);
    }
}

} // verus!
