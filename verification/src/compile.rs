//! Turning a resolved patch into records to lay out.

use vstd::prelude::*;
use crate::float::FloatOp;
use crate::graph::{dependency_order, lemma_order_complete};
use crate::model::{Node, Patch, settings};
use crate::module::{ModuleType, Registry, SourceType, arity};
use crate::plan::{RecordSpec, Source, runnable, topological};
use crate::resolve::{Resolved, consistent_nodes, net_of, patch_hops, registry_ready, resolves_to};
use crate::text::{same, spelled};
use crate::wiring::{Hop, all_producers, hop_edges, hop_in, last_producer, lemma_name_from, name_from, port_at};

verus! {

/// Those of the first `n` nodes of an order that are marked, in order.
pub open spec fn chosen(order: Seq<usize>, mask: Seq<bool>, n: int) -> Seq<usize>
    decreases n,
{
    if n <= 0 {
        Seq::empty()
    } else if mask[order[n - 1] as int] {
        chosen(order, mask, n - 1).push(order[n - 1])
    } else {
        chosen(order, mask, n - 1)
    }
}

/// All marked nodes of an order, in order.
pub open spec fn all_chosen(order: Seq<usize>, mask: Seq<bool>) -> Seq<usize> {
    chosen(order, mask, order.len() as int)
}

/// Choosing among fewer nodes gives a prefix.
pub proof fn lemma_chosen_prefix(order: Seq<usize>, mask: Seq<bool>, n: int, m: int)
    requires
        0 <= n <= m <= order.len(),
    ensures
        chosen(order, mask, n).len() <= chosen(order, mask, m).len(),
        chosen(order, mask, n) == chosen(order, mask, m).take(chosen(order, mask, n).len() as int),
        chosen(order, mask, n).len() <= n,
    decreases m,
{
    let x = chosen(order, mask, n);
    if n < m {
        lemma_chosen_prefix(order, mask, n, m - 1);
        let y = chosen(order, mask, m - 1);
        let z = chosen(order, mask, m);
        assert(z.take(x.len() as int) =~= y.take(x.len() as int));
    } else {
        assert(x.take(x.len() as int) =~= x);
        if n > 0 {
            lemma_chosen_prefix(order, mask, n - 1, n - 1);
        }
    }
}

/// Chosen nodes come from the order.
pub proof fn lemma_chosen_from(order: Seq<usize>, mask: Seq<bool>, n: int, j: int) -> (i: int)
    requires
        0 <= n <= order.len(),
        0 <= j < chosen(order, mask, n).len(),
    ensures
        0 <= i < n,
        order[i] == chosen(order, mask, n)[j],
        mask[order[i] as int],
    decreases n,
{
    if mask[order[n - 1] as int] && j == chosen(order, mask, n - 1).len() {
        n - 1
    } else {
        lemma_chosen_from(order, mask, n - 1, j)
    }
}

/// The next marked node of the order is the next of the list.
pub proof fn lemma_chosen_next(order: Seq<usize>, mask: Seq<bool>, n: int)
    requires
        0 <= n < order.len(),
        mask[order[n] as int],
    ensures
        chosen(order, mask, n).len() < all_chosen(order, mask).len(),
        all_chosen(order, mask)[chosen(order, mask, n).len() as int] == order[n],
        chosen(order, mask, n + 1).len() == chosen(order, mask, n).len() + 1,
{
    lemma_chosen_prefix(order, mask, n + 1, order.len() as int);
    let l = chosen(order, mask, n + 1);
    let m = chosen(order, mask, n).len() as int;
    assert(l[m] == order[n]);
    assert(all_chosen(order, mask).take(m + 1)[m] == all_chosen(order, mask)[m]);
}

/// Everything but one node is marked.
pub open spec fn all_but(n: int, node: usize) -> Seq<bool> {
    Seq::new(n as nat, |v: int| v != node)
}

/// The input reads what the wiring brings: list entry `rec` is the producer.
pub open spec fn reads_from(list: Seq<usize>, src: Option<(usize, usize)>, s: Source) -> bool {
    match src {
        None => s == Source::Zero,
        Some((node, port)) => match s {
            Source::Port(rec, p) => rec < list.len() && list[rec as int] == node && p == port,
            Source::Zero => false,
        },
    }
}

/// `rec` is the record of `node`. Past the reach of `u32` nothing is said of the function index.
pub open spec fn is_record<M: ModuleType, S: SourceType>(
    registry: Registry<M, S>,
    nodes: Seq<Node>,
    r: Resolved,
    list: Seq<usize>,
    fns: Seq<M>,
    node: usize,
    rec: RecordSpec,
) -> bool {
    let nd = nodes[node as int];
    let module = registry.modules()[nd.ty@].module;
    let s = settings(nd.params);
    let srcs = r.in_srcs@[node as int]@;
    &&& fns.len() <= u32::MAX ==> rec.fn_index < fns.len() && fns[rec.fn_index as int] == module
    &&& rec.state@ == module.initial(s)
    &&& rec.params@ == module.block(s)
    &&& rec.inputs@.len() == srcs.len()
    &&& forall|k: int| 0 <= k < srcs.len() ==> reads_from(list, srcs[k], #[trigger] rec.inputs@[k])
    &&& rec.num_outputs == r.out_counts@[node as int]
}

/// The records are those of the nodes of `list`, in order.
pub open spec fn are_records<M: ModuleType, S: SourceType>(
    registry: Registry<M, S>,
    nodes: Seq<Node>,
    r: Resolved,
    list: Seq<usize>,
    fns: Seq<M>,
    specs: Seq<RecordSpec>,
) -> bool {
    &&& specs.len() == list.len()
    &&& forall|j: int|
        0 <= j < list.len() ==> is_record(
            registry,
            nodes,
            r,
            list,
            fns,
            list[j],
            #[trigger] specs[j],
        )
}

/// Channel `c` of the sink is fed by the producer that the wiring brings.
pub open spec fn feeds(
    list: Seq<usize>,
    src: Option<(usize, usize)>,
    fed: Option<(usize, usize)>,
) -> bool {
    match src {
        None => fed is None,
        Some((node, port)) => match fed {
            Some((rec, p)) => rec < list.len() && list[rec as int] == node && p == port,
            None => false,
        },
    }
}

/// Every channel is fed by the producer that the wiring brings.
pub open spec fn all_feed(
    list: Seq<usize>,
    srcs: Seq<Option<(usize, usize)>>,
    fed: Seq<Option<(usize, usize)>>,
) -> bool {
    &&& fed.len() == srcs.len()
    &&& forall|c: int| 0 <= c < srcs.len() ==> feeds(list, srcs[c], #[trigger] fed[c])
}

/// A producer comes of a hop.
pub proof fn lemma_last_producer(hops: Seq<Hop>, n: int, to: int, port: int) -> (h: int)
    requires
        0 <= n <= hops.len(),
        last_producer(hops, n, to, port) is Some,
    ensures
        0 <= h < n,
        hops[h].to == to,
        last_producer(hops, n, to, port) == Some((hops[h].from, hops[h].from_port)),
    decreases n,
{
    if hops[n - 1].to == to && hops[n - 1].to_port == port {
        n - 1
    } else {
        lemma_last_producer(hops, n - 1, to, port)
    }
}

proof fn lemma_all_producers(hops: Seq<Hop>, n: int, to: int, k: int) -> (h: int)
    requires
        0 <= n <= hops.len(),
        0 <= k < all_producers(hops, n, to).len(),
    ensures
        0 <= h < n,
        hops[h].to == to,
        all_producers(hops, n, to)[k] == Some((hops[h].from, hops[h].from_port)),
    decreases n,
{
    if hops[n - 1].to == to && k == all_producers(hops, n - 1, to).len() {
        n - 1
    } else {
        lemma_all_producers(hops, n - 1, to, k)
    }
}

/// Whatever feeds an input is an output that is there, and comes earlier in the order.
pub open spec fn fed_right(r: Resolved, edges: Seq<(usize, usize)>, n: int) -> bool {
    forall|i: int, k: int|
        #![trigger r.in_srcs@[i]@[k]]
        0 <= i < n && 0 <= k < r.in_srcs@[i]@.len() ==> match r.in_srcs@[i]@[k] {
            Some((node, port)) => {
                &&& node < n
                &&& port < r.out_counts@[node as int]
                &&& edges.contains((node, i as usize))
            },
            None => true,
        }
}

pub proof fn lemma_fed_right<M: ModuleType, S: SourceType, F: Fn(FloatOp) -> u64>(
    patch: Patch,
    registry: Registry<M, S>,
    fp: F,
    r: Resolved,
)
    requires
        resolves_to(patch, registry, fp, r),
    ensures
        fed_right(r, hop_edges(patch_hops(patch, registry, fp)), patch.nodes@.len() as int),
        r.out_counts@[r.sink as int] == 0,
{
    let nodes = patch.nodes@;
    let n = nodes.len() as int;
    let hops = patch_hops(patch, registry, fp);
    let edges = hop_edges(hops);
    let net = net_of(registry, nodes, r.sink as int, r.channels as int);
    assert(r.out_counts@[r.sink as int] == net.outs[r.sink as int].len());
    assert forall|i: int, k: int|
        #![trigger r.in_srcs@[i]@[k]]
        0 <= i < n && 0 <= k < r.in_srcs@[i]@.len() implies match r.in_srcs@[i]@[k] {
        Some((node, port)) => {
            &&& node < n
            &&& port < r.out_counts@[node as int]
            &&& edges.contains((node, i as usize))
        },
        None => true,
    } by {
        if r.in_srcs@[i]@[k] is Some {
            let h = if crate::resolve::is_variadic(registry, nodes, r.sink as int, i) {
                lemma_all_producers(hops, hops.len() as int, i, k)
            } else {
                lemma_last_producer(hops, hops.len() as int, i, k)
            };
            assert(hop_in(net, hops[h]));
            assert(r.out_counts@[hops[h].from as int] == net.outs[hops[h].from as int].len());
            assert(edges[h] == (hops[h].from, i as usize));
        }
    }
}

/// Index of the type in the function table; a type that is not there yet is added.
fn fn_index_of<M: ModuleType + Copy>(
    fns: &mut Vec<M>,
    types: &mut Vec<String>,
    ty: &String,
    module: M,
) -> (index: usize)
    requires
        old(fns).len() == old(types).len(),
    ensures
        match port_at(spelled(old(types)@), ty@) {
            Some(k) => {
                &&& index == k
                &&& final(fns)@ == old(fns)@
                &&& final(types)@ == old(types)@
            },
            None => {
                &&& index == old(fns)@.len()
                &&& final(fns)@ == old(fns)@.push(module)
                &&& spelled(final(types)@) == spelled(old(types)@).push(ty@)
            },
        },
{
    let ghost ts = spelled(types@);
    let mut k: usize = 0;
    while k < types.len()
        invariant
            k <= types.len(),
            *types == *old(types),
            *fns == *old(fns),
            ts == spelled(types@),
            port_at(ts, ty@) == name_from(ts, ty@, k as int),
        decreases types.len() - k,
    {
        assert(ts[k as int] == types@[k as int]@);
        if same(types[k].as_str(), ty.as_str()) {
            return k;
        }
        k = k + 1;
    }
    fns.push(module);
    types.push(ty.clone());
    assert(spelled(types@) =~= ts.push(ty@));
    k
}

/// The function table holds the module of each of its types.
pub open spec fn table_right<M: ModuleType, S: SourceType>(
    registry: Registry<M, S>,
    fns: Seq<M>,
    types: Seq<Seq<char>>,
) -> bool {
    &&& fns.len() == types.len()
    &&& forall|k: int|
        0 <= k < types.len() ==> fns[k] == registry.modules()[#[trigger] types[k]].module
}

/// Adds a node's type to the function table.
pub(crate) fn table_index<M: ModuleType + Copy, S: SourceType>(
    registry: &Registry<M, S>,
    fns: &mut Vec<M>,
    types: &mut Vec<String>,
    ty: &String,
    module: M,
) -> (index: usize)
    requires
        table_right(*registry, old(fns)@, spelled(old(types)@)),
        module == registry.modules()[ty@].module,
    ensures
        table_right(*registry, final(fns)@, spelled(final(types)@)),
        index < final(fns).len(),
        final(fns)@[index as int] == module,
        old(fns).len() <= final(fns).len() <= old(fns).len() + 1,
        forall|k: int| 0 <= k < old(fns).len() ==> #[trigger] final(fns)@[k] == old(fns)@[k],
{
    let ghost ts = spelled(types@);
    let index: usize = fn_index_of(fns, types, ty, module);
    proof {
        lemma_name_from(ts, ty@, 0);
        assert(spelled(types@)[index as int] == ty@);
    }
    index
}

/// The records of the marked nodes among the first `n` of the order have their places in the list.
pub open spec fn placed(order: Seq<usize>, mask: Seq<bool>, n: int, rec_of_node: Seq<usize>) -> bool {
    forall|i: int|
        0 <= i < n && mask[#[trigger] order[i] as int] ==> rec_of_node[order[i] as int] < chosen(
            order,
            mask,
            n,
        ).len() && all_chosen(order, mask)[rec_of_node[order[i] as int] as int] == order[i]
}

/// One more node has its place.
pub proof fn lemma_placed(
    order: Seq<usize>,
    mask: Seq<bool>,
    n: int,
    before: Seq<usize>,
    after: Seq<usize>,
)
    requires
        0 <= n < order.len(),
        order.no_duplicates(),
        forall|i: int| 0 <= i < order.len() ==> #[trigger] order[i] < before.len(),
        placed(order, mask, n, before),
        !mask[order[n] as int] ==> after == before,
        mask[order[n] as int] ==> after == before.update(
            order[n] as int,
            chosen(order, mask, n).len() as usize,
        ) && chosen(order, mask, n).len() <= usize::MAX,
    ensures
        placed(order, mask, n + 1, after),
{
    lemma_chosen_prefix(order, mask, n, n + 1);
    assert forall|i: int|
        0 <= i < n + 1 && mask[#[trigger] order[i] as int] implies after[order[i] as int] < chosen(
        order,
        mask,
        n + 1,
    ).len() && all_chosen(order, mask)[after[order[i] as int] as int] == order[i] by {
        if i < n {
            assert(order[i] != order[n]);
            assert(after[order[i] as int] == before[order[i] as int]);
        } else {
            lemma_chosen_next(order, mask, n);
        }
    }
}

/// The sources of a record's inputs.
pub(crate) fn record_inputs(srcs: &Vec<Option<(usize, usize)>>, rec_of_node: &Vec<usize>, Ghost(list): Ghost<
    Seq<usize>,
>, Ghost(m): Ghost<int>) -> (inputs: Vec<Source>)
    requires
        0 <= m <= list.len(),
        forall|k: int|
            0 <= k < srcs@.len() ==> match #[trigger] srcs@[k] {
                Some((node, port)) => node < rec_of_node.len() && rec_of_node@[node as int] < m
                    && list[rec_of_node@[node as int] as int] == node,
                None => true,
            },
    ensures
        inputs@.len() == srcs@.len(),
        forall|k: int|
            0 <= k < srcs@.len() ==> reads_from(list, srcs@[k], #[trigger] inputs@[k]),
        forall|k: int|
            0 <= k < srcs@.len() ==> match #[trigger] inputs@[k] {
                Source::Port(rec, _) => rec < m,
                Source::Zero => true,
            },
{
    let mut inputs: Vec<Source> = Vec::new();
    let mut k: usize = 0;
    while k < srcs.len()
        invariant
            k <= srcs.len(),
            0 <= m <= list.len(),
            forall|k: int|
                0 <= k < srcs@.len() ==> match #[trigger] srcs@[k] {
                    Some((node, port)) => node < rec_of_node.len() && rec_of_node@[node as int] < m
                        && list[rec_of_node@[node as int] as int] == node,
                    None => true,
                },
            inputs@.len() == k,
            forall|i: int|
                0 <= i < k ==> reads_from(list, srcs@[i], #[trigger] inputs@[i]) && match inputs@[i] {
                    Source::Port(rec, _) => rec < m,
                    Source::Zero => true,
                },
        decreases srcs.len() - k,
    {
        let src = srcs[k];
        assert(srcs@[k as int] == src);
        let input = match src {
            Some((node, port)) => Source::Port(rec_of_node[node], port),
            None => Source::Zero,
        };
        inputs.push(input);
        k = k + 1;
    }
    inputs
}

/// What each channel of the sink reads.
pub(crate) fn sink_feeds(srcs: &Vec<Option<(usize, usize)>>, rec_of_node: &Vec<usize>, Ghost(list): Ghost<
    Seq<usize>,
>) -> (fed: Vec<Option<(usize, usize)>>)
    requires
        forall|k: int|
            0 <= k < srcs@.len() ==> match #[trigger] srcs@[k] {
                Some((node, port)) => node < rec_of_node.len() && rec_of_node@[node as int]
                    < list.len() && list[rec_of_node@[node as int] as int] == node,
                None => true,
            },
    ensures
        all_feed(list, srcs@, fed@),
{
    let mut fed: Vec<Option<(usize, usize)>> = Vec::new();
    let mut k: usize = 0;
    while k < srcs.len()
        invariant
            k <= srcs.len(),
            forall|k: int|
                0 <= k < srcs@.len() ==> match #[trigger] srcs@[k] {
                    Some((node, port)) => node < rec_of_node.len() && rec_of_node@[node as int]
                        < list.len() && list[rec_of_node@[node as int] as int] == node,
                    None => true,
                },
            fed@.len() == k,
            forall|i: int| 0 <= i < k ==> feeds(list, srcs@[i], #[trigger] fed@[i]),
        decreases srcs.len() - k,
    {
        let src = srcs[k];
        assert(srcs@[k as int] == src);
        fed.push(
            match src {
                Some((node, port)) => Some((rec_of_node[node], port)),
                None => None,
            },
        );
        k = k + 1;
    }
    fed
}

/// No node of the patch is a voice source.
pub open spec fn all_modules<M: ModuleType, S: SourceType>(
    registry: Registry<M, S>,
    nodes: Seq<Node>,
) -> bool {
    forall|i: int|
        0 <= i < nodes.len() ==> !registry.sources().dom().contains((#[trigger] nodes[i]).ty@)
}

/// The module behind a record can run it.
pub open spec fn record_runs<M: ModuleType, S: SourceType>(
    registry: Registry<M, S>,
    node: Node,
    num_inputs: nat,
    num_outputs: nat,
) -> bool {
    let module = registry.modules()[node.ty@].module;
    module.ready() && module.fits(
        module.initial(settings(node.params)).len(),
        module.block(settings(node.params)).len(),
        num_inputs,
        num_outputs,
    )
}

/// A processing module of a resolved patch can run its record.
pub proof fn lemma_record_runs<M: ModuleType, S: SourceType, F: Fn(FloatOp) -> u64>(
    patch: Patch,
    registry: Registry<M, S>,
    fp: F,
    r: Resolved,
    node: int,
)
    requires
        resolves_to(patch, registry, fp, r),
        registry_ready(registry),
        consistent_nodes(registry, patch.nodes@, r.sink as int),
        0 <= node < patch.nodes@.len(),
        node != r.sink,
        !registry.sources().dom().contains(patch.nodes@[node].ty@),
    ensures
        record_runs(
            registry,
            patch.nodes@[node],
            r.in_srcs@[node]@.len(),
            r.out_counts@[node] as nat,
        ),
        registry.modules().dom().contains(patch.nodes@[node].ty@),
{
    let nodes = patch.nodes@;
    let nd = nodes[node];
    let module = registry.modules()[nd.ty@].module;
    let s = settings(nd.params);
    let net = net_of(registry, nodes, r.sink as int, r.channels as int);
    assert(registry.modules().dom().contains(nd.ty@));
    assert(crate::resolve::node_desc(registry, nd) == Some(module.desc(s)));
    let n = r.in_srcs@[node]@.len();
    assert(arity(module.desc(s).inputs, n));
    assert(r.out_counts@[node] == net.outs[node].len());
    assert(module.fits(
        module.initial(s).len(),
        module.block(s).len(),
        n,
        module.desc(s).outputs.len(),
    ));
}

/// The records of a patch without a voice source, the function table, and what feeds the sink.
pub(crate) fn mono_records<M: ModuleType + Copy, S: SourceType, F: Fn(FloatOp) -> u64>(
    patch: &Patch,
    registry: &Registry<M, S>,
    r: &Resolved,
    Ghost(fp): Ghost<F>,
) -> (res: (Vec<RecordSpec>, Vec<M>, Vec<Option<(usize, usize)>>))
    requires
        resolves_to(*patch, *registry, fp, *r),
        registry_ready(*registry),
        consistent_nodes(*registry, patch.nodes@, r.sink as int),
        all_modules(*registry, patch.nodes@),
    ensures
        ({
            let list = all_chosen(r.order@, all_but(patch.nodes@.len() as int, r.sink));
            &&& are_records(*registry, patch.nodes@, *r, list, res.1@, res.0@)
            &&& res.1@.len() <= res.0@.len()
            &&& all_feed(list, r.in_srcs@[r.sink as int]@, res.2@)
        }),
        topological(res.0@),
        res.1@.len() <= u32::MAX ==> forall|j: int|
            0 <= j < res.0@.len() ==> runnable(res.1@, #[trigger] res.0@[j]),
{
    let n: usize = patch.nodes.len();
    let ghost nodes = patch.nodes@;
    let ghost order = r.order@;
    let ghost sink = r.sink;
    let ghost mask = all_but(n as int, sink);
    let ghost list = all_chosen(order, mask);
    let ghost edges = hop_edges(patch_hops(*patch, *registry, fp));
    let mut fns: Vec<M> = Vec::new();
    let mut types: Vec<String> = Vec::new();
    let mut records: Vec<RecordSpec> = Vec::new();
    let mut rec_of_node: Vec<usize> = vec![usize::MAX;n];
    proof {
        lemma_fed_right(*patch, *registry, fp, *r);
    }
    let mut i: usize = 0;
    while i < r.order.len()
        invariant
            i <= r.order.len() == n,
            n == nodes.len(),
            nodes == patch.nodes@,
            order == r.order@,
            sink == r.sink,
            sink < n,
            resolves_to(*patch, *registry, fp, *r),
            registry_ready(*registry),
            consistent_nodes(*registry, nodes, sink as int),
            all_modules(*registry, nodes),
            mask == all_but(n as int, sink),
            list == all_chosen(order, mask),
            edges == hop_edges(patch_hops(*patch, *registry, fp)),
            fed_right(*r, edges, n as int),
            r.out_counts@[sink as int] == 0,
            dependency_order(order, edges, n as int),
            rec_of_node.len() == n,
            placed(order, mask, i as int, rec_of_node@),
            table_right(*registry, fns@, spelled(types@)),
            records@.len() == chosen(order, mask, i as int).len(),
            fns@.len() <= records@.len() <= i,
            topological(records@),
            forall|j: int|
                0 <= j < records@.len() ==> is_record(
                    *registry,
                    nodes,
                    *r,
                    list,
                    fns@,
                    list[j],
                    #[trigger] records@[j],
                ),
        decreases r.order.len() - i,
    {
        let node: usize = r.order[i];
        let ghost before = rec_of_node@;
        let ghost fns0 = fns@;
        let ghost records0 = records@;
        let ghost m = chosen(order, mask, i as int).len() as int;
        proof {
            assert(order[i as int] < n);
            lemma_chosen_prefix(order, mask, i as int, order.len() as int);
        }
        if node != r.sink {
            let nd = &patch.nodes[node];
            proof {
                lemma_record_runs(*patch, *registry, fp, *r, node as int);
                lemma_chosen_next(order, mask, i as int);
                assert forall|k: int|
                    0 <= k < r.in_srcs@[node as int]@.len() implies match #[trigger] r.in_srcs@[node as int]@[k] {
                    Some((p, port)) => p < rec_of_node.len() && rec_of_node@[p as int] < m
                        && list[rec_of_node@[p as int] as int] == p,
                    None => true,
                } by {
                    if let Some((p, port)) = r.in_srcs@[node as int]@[k] {
                        let at = lemma_order_complete(order, edges, n as int, p);
                        assert(edges.contains((order[at], order[i as int])));
                        assert(order[at] != sink);
                    }
                }
            }
            let entry = registry.get(nd.ty.as_str());
            match entry {
                Some(entry) => {
                    let module = entry.module;
                    let index: usize = table_index(registry, &mut fns, &mut types, &nd.ty, module);
                    let inputs = record_inputs(
                        &r.in_srcs[node],
                        &rec_of_node,
                        Ghost(list),
                        Ghost(m),
                    );
                    let state = module.init_state(&nd.params);
                    let params = module.init_params(&nd.params);
                    let fn_index: u32 = #[verifier::truncate]
                    (index as u32);
                    let at: usize = records.len();
                    rec_of_node.set(node, at);
                    let record = RecordSpec {
                        fn_index,
                        state,
                        params,
                        inputs,
                        num_outputs: r.out_counts[node],
                    };
                    records.push(record);
                    proof {
                        lemma_topological_push(*r, records0, record, list, n as int, node, edges);
                        assert forall|j: int| 0 <= j < records@.len() implies is_record(
                            *registry,
                            nodes,
                            *r,
                            list,
                            fns@,
                            list[j],
                            #[trigger] records@[j],
                        ) by {
                            if j < m {
                                assert(records@[j] == records0[j]);
                                assert(is_record(
                                    *registry,
                                    nodes,
                                    *r,
                                    list,
                                    fns0,
                                    list[j],
                                    records0[j],
                                ));
                            }
                        }
                    }
                },
                None => {
                    assert(false);
                },
            }
        }
        proof {
            lemma_placed(order, mask, i as int, before, rec_of_node@);
        }
        i = i + 1;
    }
    proof {
        assert forall|k: int|
            0 <= k < r.in_srcs@[sink as int]@.len() implies match #[trigger] r.in_srcs@[sink as int]@[k] {
            Some((p, port)) => p < rec_of_node.len() && rec_of_node@[p as int] < list.len()
                && list[rec_of_node@[p as int] as int] == p,
            None => true,
        } by {
            if let Some((p, port)) = r.in_srcs@[sink as int]@[k] {
                let at = lemma_order_complete(order, edges, n as int, p);
                assert(order[at] != sink);
            }
        }
    }
    let fed = sink_feeds(&r.in_srcs[r.sink], &rec_of_node, Ghost(list));
    proof {
        if fns@.len() <= u32::MAX {
            assert forall|j: int| 0 <= j < records@.len() implies runnable(
                fns@,
                #[trigger] records@[j],
            ) by {
                let at = lemma_chosen_from(order, mask, order.len() as int, j);
                lemma_record_runs(*patch, *registry, fp, *r, list[j] as int);
                assert(is_record(*registry, nodes, *r, list, fns@, list[j], records@[j]));
            }
        }
    }
    (records, fns, fed)
}

/// A record that reads only earlier ones keeps the row topological.
pub proof fn lemma_topological_push(
    r: Resolved,
    records: Seq<RecordSpec>,
    record: RecordSpec,
    list: Seq<usize>,
    n: int,
    node: usize,
    edges: Seq<(usize, usize)>,
)
    requires
        topological(records),
        fed_right(r, edges, n),
        node < n,
        records.len() <= list.len(),
        record.inputs@.len() == r.in_srcs@[node as int]@.len(),
        forall|k: int|
            0 <= k < record.inputs@.len() ==> reads_from(
                list,
                r.in_srcs@[node as int]@[k],
                #[trigger] record.inputs@[k],
            ) && match record.inputs@[k] {
                Source::Port(rec, _) => rec < records.len(),
                Source::Zero => true,
            },
        forall|j: int|
            0 <= j < records.len() ==> (#[trigger] records[j]).num_outputs
                == r.out_counts@[list[j] as int],
    ensures
        topological(records.push(record)),
{
    let all = records.push(record);
    assert forall|i: int, k: int|
        #![trigger all[i].inputs@[k]]
        0 <= i < all.len() && 0 <= k < all[i].inputs@.len() implies match all[i].inputs@[k] {
        Source::Port(rec, port) => rec < i && port < all[rec as int].num_outputs,
        Source::Zero => true,
    } by {
        if i < records.len() {
            assert(records[i].inputs@[k] == all[i].inputs@[k]);
        } else {
            assert(reads_from(list, r.in_srcs@[node as int]@[k], record.inputs@[k]));
            if let Source::Port(rec, port) = record.inputs@[k] {
                assert(records[rec as int].num_outputs == r.out_counts@[list[rec as int] as int]);
            }
        }
    }
}

/// The record of a node runs the node's module, from its initial state and with its parameters, and
/// input `k` reads the very output that is wired to it: that port of the record of that node, or
/// silence where nothing is wired.
pub proof fn law_records_read_what_is_wired<M: ModuleType, S: SourceType>(
    registry: Registry<M, S>,
    nodes: Seq<Node>,
    r: Resolved,
    list: Seq<usize>,
    fns: Seq<M>,
    specs: Seq<RecordSpec>,
    j: int,
    k: int,
    producer: int,
)
    requires
        are_records(registry, nodes, r, list, fns, specs),
        list.no_duplicates(),
        0 <= j < list.len(),
        0 <= k < r.in_srcs@[list[j] as int]@.len(),
        0 <= producer < list.len(),
    ensures
        ({
            let node = nodes[list[j] as int];
            let module = registry.modules()[node.ty@].module;
            let wired = r.in_srcs@[list[j] as int]@[k];
            &&& specs.len() == list.len()
            &&& specs[j].inputs@.len() == r.in_srcs@[list[j] as int]@.len()
            &&& wired is None ==> specs[j].inputs@[k] == Source::Zero
            &&& wired matches Some((from, port)) ==> from == list[producer] ==> specs[j].inputs@[k]
                == Source::Port(producer as usize, port)
            &&& specs[j].state@ == module.initial(settings(node.params))
            &&& specs[j].params@ == module.block(settings(node.params))
            &&& specs[j].num_outputs == r.out_counts@[list[j] as int]
            &&& fns.len() <= u32::MAX ==> fns[specs[j].fn_index as int] == module
        }),
{
    assert(is_record(registry, nodes, r, list, fns, list[j], specs[j]));
    let wired = r.in_srcs@[list[j] as int]@[k];
    assert(reads_from(list, wired, specs[j].inputs@[k]));
    if let Source::Port(rec, p) = specs[j].inputs@[k] {
        if let Some((from, port)) = wired {
            if from == list[producer] {
                assert(list[rec as int] == list[producer]);
            }
        }
    }
}

/// A channel is fed by the very output that is wired to it, or by nothing.
pub proof fn law_channels_read_what_is_wired(
    list: Seq<usize>,
    srcs: Seq<Option<(usize, usize)>>,
    fed: Seq<Option<(usize, usize)>>,
    c: int,
    producer: int,
)
    requires
        all_feed(list, srcs, fed),
        list.no_duplicates(),
        0 <= c < srcs.len(),
        0 <= producer < list.len(),
    ensures
        fed.len() == srcs.len(),
        srcs[c] is None ==> fed[c] is None,
        srcs[c] matches Some((from, port)) ==> from == list[producer] ==> fed[c] == Some(
            (producer as usize, port),
        ),
{
    assert(feeds(list, srcs[c], fed[c]));
}

/// The records are one per marked node, in dependency order: a node is in the list if and only if it
/// is in the order and marked, and of two in the list the one that comes first in the order comes
/// first.
pub proof fn law_marked_nodes_get_records(order: Seq<usize>, mask: Seq<bool>, n: int, node: usize)
    requires
        0 <= n <= order.len(),
        order.no_duplicates(),
    ensures
        chosen(order, mask, n).contains(node) <==> order.take(n).contains(node)
            && mask[node as int],
        chosen(order, mask, n).no_duplicates(),
    decreases n,
{
    let all = chosen(order, mask, n);
    if n > 0 {
        let last = order[n - 1];
        let less = chosen(order, mask, n - 1);
        let seen = order.take(n - 1);
        let now = order.take(n);
        law_marked_nodes_get_records(order, mask, n - 1, node);
        law_marked_nodes_get_records(order, mask, n - 1, last);
        assert(now =~= seen.push(last));
        assert(now[n - 1] == last);
        assert(!seen.contains(last)) by {
            if seen.contains(last) {
                let i = choose|i: int| 0 <= i < seen.len() && seen[i] == last;
                assert(order[i] == order[n - 1]);
            }
        }
        if seen.contains(node) {
            let i = choose|i: int| 0 <= i < seen.len() && seen[i] == node;
            assert(now[i] == node);
        }
        if now.contains(node) && node != last {
            let i = choose|i: int| 0 <= i < now.len() && now[i] == node;
            assert(seen[i] == node);
        }
        if mask[last as int] {
            assert(all[less.len() as int] == last);
            if less.contains(node) {
                let i = choose|i: int| 0 <= i < less.len() && less[i] == node;
                assert(all[i] == node);
            }
            if all.contains(node) && node != last {
                let i = choose|i: int| 0 <= i < all.len() && all[i] == node;
                assert(less[i] == node);
            }
        }
    } else {
        assert(order.take(0).len() == 0);
    }
}

} // verus!
