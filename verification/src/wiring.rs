//! Resolving the wires of a patch against the ports of its nodes.

use vstd::prelude::*;
use crate::model::{Node, Wire};
use crate::text::{same, spelled, spelled_lists};

verus! {

/// A wire between ports that are there: node and output port, node and input port.
#[derive(Debug, Clone, Copy, PartialEq, Eq, Structural)]
pub struct Hop {
    pub from: usize,
    pub from_port: usize,
    pub to: usize,
    pub to_port: usize,
}

/// Why a wire cannot be resolved.
#[derive(Debug)]
pub enum WireFault {
    UnknownNode(String),
    UnknownPort { node: String, port: String },
}

/// The contents of a [`WireFault`].
#[verifier::ext_equal]
pub enum FaultView {
    UnknownNode(Seq<char>),
    UnknownPort { node: Seq<char>, port: Seq<char> },
}

impl View for WireFault {
    type V = FaultView;

    open spec fn view(&self) -> FaultView {
        match self {
            WireFault::UnknownNode(n) => FaultView::UnknownNode(n@),
            WireFault::UnknownPort { node, port } => FaultView::UnknownPort {
                node: node@,
                port: port@,
            },
        }
    }
}

/// What wires are resolved against: the nodes' ids, and the names of their ports.
#[verifier::ext_equal]
pub struct Net {
    pub ids: Seq<Seq<char>>,
    pub ins: Seq<Seq<Seq<char>>>,
    pub outs: Seq<Seq<Seq<char>>>,
}

/// Index of the last of the first `n` nodes with the given id. Among nodes that share an id, the
/// last one has it.
pub open spec fn node_at(ids: Seq<Seq<char>>, id: Seq<char>, n: int) -> Option<int>
    decreases n,
{
    if n <= 0 {
        None
    } else if ids[n - 1] == id {
        Some(n - 1)
    } else {
        node_at(ids, id, n - 1)
    }
}

/// Index of the first name from `i` on that is the given one.
pub open spec fn name_from(names: Seq<Seq<char>>, name: Seq<char>, i: int) -> Option<int>
    decreases names.len() - i,
{
    if i >= names.len() {
        None
    } else if names[i] == name {
        Some(i)
    } else {
        name_from(names, name, i + 1)
    }
}

/// Index of the port with the given name.
pub open spec fn port_at(names: Seq<Seq<char>>, name: Seq<char>) -> Option<int> {
    name_from(names, name, 0)
}

/// What a wire resolves to: its ends are looked up first, then the two ports.
pub open spec fn resolved_wire(net: Net, w: Wire) -> Result<Hop, FaultView> {
    match node_at(net.ids, w.from.0@, net.ids.len() as int) {
        None => Err(FaultView::UnknownNode(w.from.0@)),
        Some(fi) => match node_at(net.ids, w.to.0@, net.ids.len() as int) {
            None => Err(FaultView::UnknownNode(w.to.0@)),
            Some(ti) => match port_at(net.outs[fi], w.from.1@) {
                None => Err(FaultView::UnknownPort { node: w.from.0@, port: w.from.1@ }),
                Some(fp) => match port_at(net.ins[ti], w.to.1@) {
                    None => Err(FaultView::UnknownPort { node: w.to.0@, port: w.to.1@ }),
                    Some(tp) => Ok(
                        Hop {
                            from: fi as usize,
                            from_port: fp as usize,
                            to: ti as usize,
                            to_port: tp as usize,
                        },
                    ),
                },
            },
        },
    }
}

/// What the first `n` wires resolve to: one hop per wire, or what is wrong with the first wire
/// that cannot be resolved.
pub open spec fn resolved_wires(net: Net, wires: Seq<Wire>, n: int) -> Result<Seq<Hop>, FaultView>
    decreases n,
{
    if n <= 0 {
        Ok(Seq::empty())
    } else {
        match resolved_wires(net, wires, n - 1) {
            Err(e) => Err(e),
            Ok(hops) => match resolved_wire(net, wires[n - 1]) {
                Err(e) => Err(e),
                Ok(hop) => Ok(hops.push(hop)),
            },
        }
    }
}

/// A hop joins ports that are there.
pub open spec fn hop_in(net: Net, hop: Hop) -> bool {
    &&& hop.from < net.ids.len()
    &&& hop.to < net.ids.len()
    &&& hop.from_port < net.outs[hop.from as int].len()
    &&& hop.to_port < net.ins[hop.to as int].len()
}

/// A node that is found has the id.
proof fn lemma_node_at(ids: Seq<Seq<char>>, id: Seq<char>, n: int)
    ensures
        node_at(ids, id, n) matches Some(i) ==> 0 <= i < n && ids[i] == id,
    decreases n,
{
    if n > 0 {
        lemma_node_at(ids, id, n - 1);
    }
}

/// A name that is found stands where it is found.
pub proof fn lemma_name_from(names: Seq<Seq<char>>, name: Seq<char>, i: int)
    requires
        0 <= i,
    ensures
        name_from(names, name, i) matches Some(k) ==> i <= k < names.len() && names[k] == name,
    decreases names.len() - i,
{
    if i < names.len() && names[i] != name {
        lemma_name_from(names, name, i + 1);
    }
}

/// The ids of a list of nodes.
pub open spec fn node_ids(nodes: Seq<Node>) -> Seq<Seq<char>> {
    Seq::new(nodes.len(), |i: int| nodes[i].id@)
}

/// Looks a node up by its id.
fn find_node(nodes: &Vec<Node>, id: &str) -> (found: Option<usize>)
    ensures
        match found {
            Some(i) => node_at(node_ids(nodes@), id@, nodes@.len() as int) == Some(i as int),
            None => node_at(node_ids(nodes@), id@, nodes@.len() as int) is None,
        },
        found matches Some(i) ==> i < nodes.len(),
{
    let ghost ids = node_ids(nodes@);
    let mut n: usize = nodes.len();
    while n > 0
        invariant
            n <= nodes.len(),
            ids == node_ids(nodes@),
            node_at(ids, id@, nodes@.len() as int) == node_at(ids, id@, n as int),
        decreases n,
    {
        assert(ids[n - 1] == nodes@[n - 1].id@);
        if same(nodes[n - 1].id.as_str(), id) {
            return Some(n - 1);
        }
        n = n - 1;
    }
    None
}

/// Looks a port up by its name.
fn find_port(names: &Vec<String>, name: &str) -> (found: Option<usize>)
    ensures
        match found {
            Some(i) => port_at(spelled(names@), name@) == Some(i as int),
            None => port_at(spelled(names@), name@) is None,
        },
        found matches Some(i) ==> i < names.len(),
{
    let ghost ns = spelled(names@);
    let mut i: usize = 0;
    while i < names.len()
        invariant
            i <= names.len(),
            ns == spelled(names@),
            port_at(ns, name@) == name_from(ns, name@, i as int),
        decreases names.len() - i,
    {
        assert(ns[i as int] == names@[i as int]@);
        if same(names[i].as_str(), name) {
            return Some(i);
        }
        i = i + 1;
    }
    None
}

/// Resolves one wire.
fn resolve_wire(
    nodes: &Vec<Node>,
    ins: &Vec<Vec<String>>,
    outs: &Vec<Vec<String>>,
    w: &Wire,
) -> (res: Result<Hop, WireFault>)
    requires
        ins.len() == nodes.len(),
        outs.len() == nodes.len(),
    ensures
        ({
            let net = Net {
                ids: node_ids(nodes@),
                ins: spelled_lists(ins@),
                outs: spelled_lists(outs@),
            };
            match res {
                Ok(hop) => resolved_wire(net, *w) == Ok::<Hop, FaultView>(hop) && hop_in(net, hop),
                Err(fault) => resolved_wire(net, *w) == Err::<Hop, FaultView>(fault@),
            }
        }),
{
    let fi: usize = match find_node(nodes, w.from.node()) {
        Some(i) => i,
        None => {
            return Err(WireFault::UnknownNode(w.from.node().to_owned()));
        },
    };
    let ti: usize = match find_node(nodes, w.to.node()) {
        Some(i) => i,
        None => {
            return Err(WireFault::UnknownNode(w.to.node().to_owned()));
        },
    };
    assert(spelled_lists(outs@)[fi as int] == spelled(outs@[fi as int]@));
    assert(spelled_lists(ins@)[ti as int] == spelled(ins@[ti as int]@));
    let fp: usize = match find_port(&outs[fi], w.from.port()) {
        Some(p) => p,
        None => {
            return Err(
                WireFault::UnknownPort {
                    node: w.from.node().to_owned(),
                    port: w.from.port().to_owned(),
                },
            );
        },
    };
    let tp: usize = match find_port(&ins[ti], w.to.port()) {
        Some(p) => p,
        None => {
            return Err(
                WireFault::UnknownPort {
                    node: w.to.node().to_owned(),
                    port: w.to.port().to_owned(),
                },
            );
        },
    };
    Ok(Hop { from: fi, from_port: fp, to: ti, to_port: tp })
}

/// A wire that cannot be resolved spoils all longer lists.
proof fn lemma_fault_stays(net: Net, wires: Seq<Wire>, n: int, m: int)
    requires
        0 <= n <= m,
        resolved_wires(net, wires, n) is Err,
    ensures
        resolved_wires(net, wires, m) == resolved_wires(net, wires, n),
    decreases m,
{
    if n < m {
        lemma_fault_stays(net, wires, n, m - 1);
    }
}

/// Resolves the wires, in order.
pub fn resolve_wires(
    nodes: &Vec<Node>,
    ins: &Vec<Vec<String>>,
    outs: &Vec<Vec<String>>,
    wires: &Vec<Wire>,
) -> (res: Result<Vec<Hop>, WireFault>)
    requires
        ins.len() == nodes.len(),
        outs.len() == nodes.len(),
    ensures
        ({
            let net = Net {
                ids: node_ids(nodes@),
                ins: spelled_lists(ins@),
                outs: spelled_lists(outs@),
            };
            match res {
                Ok(hops) => {
                    &&& resolved_wires(net, wires@, wires@.len() as int) == Ok::<
                        Seq<Hop>,
                        FaultView,
                    >(hops@)
                    &&& hops@.len() == wires@.len()
                    &&& forall|k: int| 0 <= k < hops@.len() ==> hop_in(net, #[trigger] hops@[k])
                },
                Err(fault) => resolved_wires(net, wires@, wires@.len() as int) == Err::<
                    Seq<Hop>,
                    FaultView,
                >(fault@),
            }
        }),
{
    let ghost net = Net {
        ids: node_ids(nodes@),
        ins: spelled_lists(ins@),
        outs: spelled_lists(outs@),
    };
    let mut hops: Vec<Hop> = Vec::new();
    let mut k: usize = 0;
    while k < wires.len()
        invariant
            k <= wires.len(),
            ins.len() == nodes.len(),
            outs.len() == nodes.len(),
            net == (Net {
                ids: node_ids(nodes@),
                ins: spelled_lists(ins@),
                outs: spelled_lists(outs@),
            }),
            hops@.len() == k,
            resolved_wires(net, wires@, k as int) == Ok::<Seq<Hop>, FaultView>(hops@),
            forall|i: int| 0 <= i < hops@.len() ==> hop_in(net, #[trigger] hops@[i]),
        decreases wires.len() - k,
    {
        match resolve_wire(nodes, ins, outs, &wires[k]) {
            Ok(hop) => {
                hops.push(hop);
            },
            Err(fault) => {
                proof {
                    lemma_fault_stays(net, wires@, k + 1, wires@.len() as int);
                }
                return Err(fault);
            },
        }
        k = k + 1;
    }
    Ok(hops)
}

/// The producer that the last of the first `n` hops brings to an input port.
pub open spec fn last_producer(hops: Seq<Hop>, n: int, to: int, port: int) -> Option<(usize, usize)>
    decreases n,
{
    if n <= 0 {
        None
    } else if hops[n - 1].to == to && hops[n - 1].to_port == port {
        Some((hops[n - 1].from, hops[n - 1].from_port))
    } else {
        last_producer(hops, n - 1, to, port)
    }
}

/// The producers that the first `n` hops bring to a node, one per hop.
pub open spec fn all_producers(hops: Seq<Hop>, n: int, to: int) -> Seq<Option<(usize, usize)>>
    decreases n,
{
    if n <= 0 {
        Seq::empty()
    } else if hops[n - 1].to == to {
        all_producers(hops, n - 1, to).push(Some((hops[n - 1].from, hops[n - 1].from_port)))
    } else {
        all_producers(hops, n - 1, to)
    }
}

/// The edges between nodes that the hops make.
pub open spec fn hop_edges(hops: Seq<Hop>) -> Seq<(usize, usize)> {
    Seq::new(hops.len(), |k: int| (hops[k].from, hops[k].to))
}

/// Lists the edges between nodes.
pub fn edges_of(hops: &Vec<Hop>) -> (edges: Vec<(usize, usize)>)
    ensures
        edges@ == hop_edges(hops@),
{
    let mut edges: Vec<(usize, usize)> = Vec::new();
    let mut k: usize = 0;
    while k < hops.len()
        invariant
            k <= hops.len(),
            edges@ =~= hop_edges(hops@.take(k as int)),
        decreases hops.len() - k,
    {
        edges.push((hops[k].from, hops[k].to));
        k = k + 1;
    }
    assert(hops@.take(k as int) =~= hops@);
    edges
}

/// The places of a list can be counted in a `usize`.
pub open spec fn countable_net(net: Net) -> bool {
    &&& net.ins.len() == net.ids.len()
    &&& net.outs.len() == net.ids.len()
    &&& net.ids.len() <= usize::MAX
    &&& forall|i: int| 0 <= i < net.ids.len() ==> (#[trigger] net.ins[i]).len() <= usize::MAX
    &&& forall|i: int| 0 <= i < net.ids.len() ==> (#[trigger] net.outs[i]).len() <= usize::MAX
}

/// A node is found under its id, and of several with one id the last; none is found where none has
/// the id.
pub proof fn law_last_node_has_the_id(ids: Seq<Seq<char>>, id: Seq<char>, n: int)
    requires
        0 <= n <= ids.len(),
    ensures
        match node_at(ids, id, n) {
            Some(i) => 0 <= i < n && ids[i] == id && forall|k: int|
                i < k < n ==> #[trigger] ids[k] != id,
            None => forall|k: int| 0 <= k < n ==> #[trigger] ids[k] != id,
        },
    decreases n,
{
    if n > 0 {
        law_last_node_has_the_id(ids, id, n - 1);
    }
}

/// A port is found under its name, and none where none has the name.
pub proof fn law_port_is_found_by_its_name(names: Seq<Seq<char>>, name: Seq<char>, from: int)
    requires
        0 <= from <= names.len(),
    ensures
        match name_from(names, name, from) {
            Some(i) => from <= i < names.len() && names[i] == name && forall|k: int|
                from <= k < i ==> #[trigger] names[k] != name,
            None => forall|k: int| from <= k < names.len() ==> #[trigger] names[k] != name,
        },
    decreases names.len() - from,
{
    if from < names.len() && names[from] != name {
        law_port_is_found_by_its_name(names, name, from + 1);
    }
}

/// A wire joins the ports that it names: the output port of the node that it comes from with the input
/// port of the node that it goes to. It fails on an end that names no node, and else on a port that
/// is not there, the end that it comes from first.
pub proof fn law_wire_joins_the_ports_it_names(net: Net, w: Wire)
    requires
        countable_net(net),
    ensures
        match resolved_wire(net, w) {
            Ok(hop) => {
                &&& hop_in(net, hop)
                &&& net.ids[hop.from as int] == w.from.0@
                &&& net.outs[hop.from as int][hop.from_port as int] == w.from.1@
                &&& net.ids[hop.to as int] == w.to.0@
                &&& net.ins[hop.to as int][hop.to_port as int] == w.to.1@
            },
            Err(FaultView::UnknownNode(id)) => !net.ids.contains(id) && (id == w.from.0@ || id
                == w.to.0@ && net.ids.contains(w.from.0@)),
            Err(FaultView::UnknownPort { node, port }) => {
                &&& net.ids.contains(w.from.0@)
                &&& net.ids.contains(w.to.0@)
                &&& (node == w.from.0@ && port == w.from.1@) || (node == w.to.0@ && port == w.to.1@)
            },
        },
{
    let n = net.ids.len() as int;
    law_last_node_has_the_id(net.ids, w.from.0@, n);
    law_last_node_has_the_id(net.ids, w.to.0@, n);
    if let Some(fi) = node_at(net.ids, w.from.0@, n) {
        law_port_is_found_by_its_name(net.outs[fi], w.from.1@, 0);
        assert(net.ids[fi] == w.from.0@);
        assert(net.outs[fi].len() <= usize::MAX);
    }
    if let Some(ti) = node_at(net.ids, w.to.0@, n) {
        law_port_is_found_by_its_name(net.ins[ti], w.to.1@, 0);
        assert(net.ids[ti] == w.to.0@);
        assert(net.ins[ti].len() <= usize::MAX);
    }
}

/// Every wire gives one hop, in order; or the first wire that cannot be resolved says why.
pub proof fn law_every_wire_gives_a_hop(net: Net, wires: Seq<Wire>, n: int)
    requires
        0 <= n <= wires.len(),
    ensures
        match resolved_wires(net, wires, n) {
            Ok(hops) => hops.len() == n && forall|k: int|
                0 <= k < n ==> resolved_wire(net, wires[k]) == Ok::<Hop, FaultView>(
                    #[trigger] hops[k],
                ),
            Err(fault) => exists|k: int|
                0 <= k < n && #[trigger] resolved_wire(net, wires[k]) == Err::<Hop, FaultView>(
                    fault,
                ) && forall|j: int| 0 <= j < k ==> (#[trigger] resolved_wire(net, wires[j])) is Ok,
        },
    decreases n,
{
    if n > 0 {
        law_every_wire_gives_a_hop(net, wires, n - 1);
        if let Ok(hops) = resolved_wires(net, wires, n - 1) {
            if let Err(fault) = resolved_wire(net, wires[n - 1]) {
                assert forall|j: int| 0 <= j < n - 1 implies (#[trigger] resolved_wire(
                    net,
                    wires[j],
                )) is Ok by {
                    assert(resolved_wire(net, wires[j]) == Ok::<Hop, FaultView>(hops[j]));
                }
                assert(resolved_wire(net, wires[n - 1]) == Err::<Hop, FaultView>(fault));
            }
        }
    }
}

} // verus!
