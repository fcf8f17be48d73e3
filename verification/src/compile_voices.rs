//! Turning a resolved patch with a voice source into records to lay out.

use vstd::prelude::*;
use crate::bytes::read_bytes;
use crate::compile::{all_chosen, are_records, chosen, fed_right, is_record, lemma_chosen_from, lemma_chosen_next, lemma_chosen_prefix, lemma_fed_right, lemma_placed, lemma_record_runs, lemma_topological_push, placed, record_inputs, table_index, table_right};
use crate::downstream::{downstream, feeds_node, lemma_downstream_node, lemma_downstream_step, reads_node, src_views, step, voice_nodes, voice_walk, walk_step};
use crate::float::FloatOp;
use crate::graph::{dependency_order, lemma_order_complete};
use crate::model::{Node, Patch, settings};
use crate::module::{ModuleType, Registry, SourceType};
use crate::plan::{RecordSpec, Source, runnable, topological};
use crate::resolve::{Resolved, consistent_nodes, patch_hops, registry_ready, resolves_to};
use crate::text::spelled;
use crate::voice_layout::{VoiceRecordSpec, VoiceSource, VoicedShape};
use crate::voiced_plan::{all_runnable, voice_runnable};
use crate::wiring::hop_edges;

verus! {

/// A producer feeding an output channel.
#[derive(Debug, Clone, Copy, PartialEq, Eq, Structural)]
pub enum SinkSrc {
    /// A shared record's output (summed once).
    Shared(usize, usize),
    /// A per-voice record's output (summed over the active slots).
    Voice(usize, usize),
}

/// How the nodes of a patch are divided: the source, the nodes downstream of it, the rest.
#[verifier::ext_equal]
pub struct Division {
    pub source: usize,
    /// Marks the nodes downstream of the source.
    pub voice: Seq<bool>,
    /// Marks the nodes that are neither the sink, the source, nor downstream of it.
    pub shared: Seq<bool>,
}

/// The division that the wiring and the source give.
pub open spec fn division(r: Resolved, source: usize) -> Division {
    let srcs = src_views(r.in_srcs@);
    let voice = Seq::new(
        r.in_srcs@.len(),
        |v: int| downstream(srcs, source, r.sink, v as usize),
    );
    Division {
        source,
        voice,
        shared: Seq::new(
            r.in_srcs@.len(),
            |v: int| v != r.sink && v != source && !voice[v],
        ),
    }
}

/// The voice input reads what the wiring brings, in its own slot where that is per voice.
pub open spec fn voice_reads_from(
    d: Division,
    order: Seq<usize>,
    src: Option<(usize, usize)>,
    s: VoiceSource,
) -> bool {
    let shared = all_chosen(order, d.shared);
    let voice = all_chosen(order, d.voice);
    match src {
        None => s == VoiceSource::Zero,
        Some((node, port)) => if node == d.source {
            s == VoiceSource::SourceOut(port)
        } else if d.voice[node as int] {
            s matches VoiceSource::Voice(rec, p) && rec < voice.len() && voice[rec as int] == node
                && p == port
        } else {
            s matches VoiceSource::Shared(rec, p) && rec < shared.len() && shared[rec as int] == node
                && p == port
        },
    }
}

/// `rec` is the voice record of `node`. Past the reach of `u32` nothing is said of the function
/// index.
pub open spec fn is_voice_record<M: ModuleType, S: SourceType>(
    registry: Registry<M, S>,
    nodes: Seq<Node>,
    r: Resolved,
    d: Division,
    fns: Seq<M>,
    node: usize,
    rec: VoiceRecordSpec,
) -> bool {
    let nd = nodes[node as int];
    let module = registry.modules()[nd.ty@].module;
    let s = settings(nd.params);
    let srcs = r.in_srcs@[node as int]@;
    &&& fns.len() <= u32::MAX ==> rec.fn_index < fns.len() && fns[rec.fn_index as int] == module
    &&& rec.state@ == module.initial(s)
    &&& rec.params@ == module.block(s)
    &&& rec.inputs@.len() == srcs.len()
    &&& forall|k: int|
        0 <= k < srcs.len() ==> voice_reads_from(d, r.order@, srcs[k], #[trigger] rec.inputs@[k])
    &&& rec.num_outputs == r.out_counts@[node as int]
}

/// The records are those of the nodes downstream of the source, in order.
pub open spec fn are_voice_records<M: ModuleType, S: SourceType>(
    registry: Registry<M, S>,
    nodes: Seq<Node>,
    r: Resolved,
    d: Division,
    fns: Seq<M>,
    specs: Seq<VoiceRecordSpec>,
) -> bool {
    let list = all_chosen(r.order@, d.voice);
    &&& specs.len() == list.len()
    &&& forall|j: int|
        0 <= j < list.len() ==> is_voice_record(
            registry,
            nodes,
            r,
            d,
            fns,
            list[j],
            #[trigger] specs[j],
        )
}

/// The channel is fed by the producer that the wiring brings; a source output wired straight to
/// audio feeds nothing.
pub open spec fn voice_feeds(
    d: Division,
    order: Seq<usize>,
    src: Option<(usize, usize)>,
    fed: Option<SinkSrc>,
) -> bool {
    let shared = all_chosen(order, d.shared);
    let voice = all_chosen(order, d.voice);
    match src {
        None => fed is None,
        Some((node, port)) => if d.voice[node as int] {
            fed matches Some(SinkSrc::Voice(rec, p)) && rec < voice.len() && voice[rec as int]
                == node && p == port
        } else if node == d.source {
            fed is None
        } else {
            fed matches Some(SinkSrc::Shared(rec, p)) && rec < shared.len() && shared[rec as int]
                == node && p == port
        },
    }
}

/// Every channel is fed by the producer that the wiring brings.
pub open spec fn all_voice_feed(
    d: Division,
    order: Seq<usize>,
    srcs: Seq<Option<(usize, usize)>>,
    fed: Seq<Option<SinkSrc>>,
) -> bool {
    &&& fed.len() == srcs.len()
    &&& forall|c: int| 0 <= c < srcs.len() ==> voice_feeds(d, order, srcs[c], #[trigger] fed[c])
}

/// The records of a patch with a voice source.
pub struct PolyRecords<M: ModuleType> {
    pub shared: Vec<RecordSpec>,
    pub voice: Vec<VoiceRecordSpec>,
    pub template_states: Vec<Vec<u8>>,
    pub fns: Vec<M>,
    pub sink: Vec<Option<SinkSrc>>,
}

/// The shape of a plan of these records.
pub open spec fn poly_shape<M: ModuleType>(
    p: PolyRecords<M>,
    block_size: int,
    num_source_outputs: int,
    max_voices: int,
) -> VoicedShape {
    VoicedShape {
        block_size,
        shared: p.shared@,
        num_source_outputs,
        voice: p.voice@,
        max_voices,
    }
}

/// The records are those of the patch.
pub open spec fn compiles_to<M: ModuleType, S: SourceType>(
    registry: Registry<M, S>,
    nodes: Seq<Node>,
    r: Resolved,
    source: usize,
    p: PolyRecords<M>,
) -> bool {
    let d = division(r, source);
    &&& are_records(registry, nodes, r, all_chosen(r.order@, d.shared), p.fns@, p.shared@)
    &&& are_voice_records(registry, nodes, r, d, p.fns@, p.voice@)
    &&& all_voice_feed(d, r.order@, r.in_srcs@[r.sink as int]@, p.sink@)
    &&& p.template_states@.len() == p.voice@.len()
    &&& forall|m: int|
        0 <= m < p.voice@.len() ==> (#[trigger] p.template_states@[m])@ == p.voice@[m].state@
}

/// Only one node, if any, is a voice source.
pub open spec fn one_source<M: ModuleType, S: SourceType>(
    registry: Registry<M, S>,
    nodes: Seq<Node>,
    source: usize,
) -> bool {
    forall|i: int|
        0 <= i < nodes.len() && i != source ==> !registry.sources().dom().contains(
            (#[trigger] nodes[i]).ty@,
        )
}

/// Where the producers of a node's inputs have their records.
spec fn located(
    d: Division,
    order: Seq<usize>,
    n: int,
    shared_rec: Seq<usize>,
    voice_rec: Seq<usize>,
    node: usize,
) -> bool {
    let shared = all_chosen(order, d.shared);
    let voice = all_chosen(order, d.voice);
    &&& node < d.voice.len()
    &&& node != d.source && d.voice[node as int] ==> voice_rec[node as int] < chosen(
        order,
        d.voice,
        n,
    ).len() && voice[voice_rec[node as int] as int] == node
    &&& node != d.source && !d.voice[node as int] ==> shared_rec[node as int] < chosen(
        order,
        d.shared,
        n,
    ).len() && shared[shared_rec[node as int] as int] == node
}

/// The sources of a voice record's inputs.
fn voice_inputs(
    srcs: &Vec<Option<(usize, usize)>>,
    source: usize,
    is_voice: &Vec<bool>,
    shared_rec: &Vec<usize>,
    voice_rec: &Vec<usize>,
    Ghost(d): Ghost<Division>,
    Ghost(order): Ghost<Seq<usize>>,
    Ghost(n): Ghost<int>,
) -> (inputs: Vec<VoiceSource>)
    requires
        0 <= n <= order.len(),
        d.source == source,
        d.voice == is_voice@,
        shared_rec@.len() == is_voice@.len(),
        voice_rec@.len() == is_voice@.len(),
        forall|k: int|
            0 <= k < srcs@.len() ==> match #[trigger] srcs@[k] {
                Some((node, port)) => located(d, order, n, shared_rec@, voice_rec@, node),
                None => true,
            },
    ensures
        inputs@.len() == srcs@.len(),
        forall|k: int|
            0 <= k < srcs@.len() ==> voice_reads_from(d, order, srcs@[k], #[trigger] inputs@[k]),
        forall|k: int|
            0 <= k < srcs@.len() ==> match #[trigger] inputs@[k] {
                VoiceSource::Shared(rec, _) => rec < chosen(order, d.shared, n).len(),
                VoiceSource::Voice(rec, _) => rec < chosen(order, d.voice, n).len(),
                _ => true,
            },
{
    let mut inputs: Vec<VoiceSource> = Vec::new();
    let mut k: usize = 0;
    proof {
        lemma_chosen_prefix(order, d.shared, n, order.len() as int);
        lemma_chosen_prefix(order, d.voice, n, order.len() as int);
    }
    while k < srcs.len()
        invariant
            k <= srcs.len(),
            0 <= n <= order.len(),
            d.source == source,
            d.voice == is_voice@,
            shared_rec@.len() == is_voice@.len(),
            voice_rec@.len() == is_voice@.len(),
            chosen(order, d.shared, n).len() <= all_chosen(order, d.shared).len(),
            chosen(order, d.voice, n).len() <= all_chosen(order, d.voice).len(),
            forall|k: int|
                0 <= k < srcs@.len() ==> match #[trigger] srcs@[k] {
                    Some((node, port)) => located(d, order, n, shared_rec@, voice_rec@, node),
                    None => true,
                },
            inputs@.len() == k,
            forall|i: int|
                0 <= i < k ==> voice_reads_from(d, order, srcs@[i], #[trigger] inputs@[i])
                    && match inputs@[i] {
                    VoiceSource::Shared(rec, _) => rec < chosen(order, d.shared, n).len(),
                    VoiceSource::Voice(rec, _) => rec < chosen(order, d.voice, n).len(),
                    _ => true,
                },
        decreases srcs.len() - k,
    {
        let src = srcs[k];
        assert(srcs@[k as int] == src);
        let input = match src {
            None => VoiceSource::Zero,
            Some((node, port)) => if node == source {
                VoiceSource::SourceOut(port)
            } else if is_voice[node] {
                VoiceSource::Voice(voice_rec[node], port)
            } else {
                VoiceSource::Shared(shared_rec[node], port)
            },
        };
        inputs.push(input);
        k = k + 1;
    }
    inputs
}

/// What each channel of the sink reads.
fn voice_sink_feeds(
    srcs: &Vec<Option<(usize, usize)>>,
    source: usize,
    is_voice: &Vec<bool>,
    shared_rec: &Vec<usize>,
    voice_rec: &Vec<usize>,
    Ghost(d): Ghost<Division>,
    Ghost(order): Ghost<Seq<usize>>,
) -> (fed: Vec<Option<SinkSrc>>)
    requires
        d.source == source,
        d.voice == is_voice@,
        shared_rec@.len() == is_voice@.len(),
        voice_rec@.len() == is_voice@.len(),
        source < is_voice@.len(),
        !is_voice@[source as int],
        forall|k: int|
            0 <= k < srcs@.len() ==> match #[trigger] srcs@[k] {
                Some((node, port)) => located(
                    d,
                    order,
                    order.len() as int,
                    shared_rec@,
                    voice_rec@,
                    node,
                ),
                None => true,
            },
    ensures
        all_voice_feed(d, order, srcs@, fed@),
{
    let mut fed: Vec<Option<SinkSrc>> = Vec::new();
    let mut k: usize = 0;
    while k < srcs.len()
        invariant
            k <= srcs.len(),
            d.source == source,
            d.voice == is_voice@,
            shared_rec@.len() == is_voice@.len(),
            voice_rec@.len() == is_voice@.len(),
            source < is_voice@.len(),
            !is_voice@[source as int],
            forall|k: int|
                0 <= k < srcs@.len() ==> match #[trigger] srcs@[k] {
                    Some((node, port)) => located(
                        d,
                        order,
                        order.len() as int,
                        shared_rec@,
                        voice_rec@,
                        node,
                    ),
                    None => true,
                },
            fed@.len() == k,
            forall|i: int| 0 <= i < k ==> voice_feeds(d, order, srcs@[i], #[trigger] fed@[i]),
        decreases srcs.len() - k,
    {
        let src = srcs[k];
        assert(srcs@[k as int] == src);
        let feed = match src {
            None => None,
            Some((node, port)) => if is_voice[node] {
                Some(SinkSrc::Voice(voice_rec[node], port))
            } else if node == source {
                None  // a source output wired straight to audio is not supported

            } else {
                Some(SinkSrc::Shared(shared_rec[node], port))
            },
        };
        fed.push(feed);
        k = k + 1;
    }
    fed
}

/// A node that is read by one that is neither per voice nor the sink is not per voice itself.
proof fn lemma_shared_closed(r: Resolved, source: usize, node: usize, k: int)
    requires
        node < r.in_srcs@.len(),
        node != r.sink,
        node != source,
        !division(r, source).voice[node as int],
        0 <= k < r.in_srcs@[node as int]@.len(),
        r.in_srcs@[node as int]@[k] matches Some((p, _)) && p < r.in_srcs@.len(),
    ensures
        ({
            let p = (r.in_srcs@[node as int]@[k]->0).0;
            p != source && !division(r, source).voice[p as int]
        }),
{
    let srcs = src_views(r.in_srcs@);
    let p = (r.in_srcs@[node as int]@[k]->0).0;
    assert(srcs[node as int] == r.in_srcs@[node as int]@);
    assert(reads_node(srcs, p, node, k));
    assert(feeds_node(srcs, p, node));
    assert(step(srcs, source, r.sink, p, node));
    if p == source || division(r, source).voice[p as int] {
        lemma_downstream_step(srcs, source, r.sink, p, node);
    }
}

/// A voice record that reads only earlier records keeps the rows topological.
proof fn lemma_voice_topological_push(
    r: Resolved,
    d: Division,
    shape: VoicedShape,
    record: VoiceRecordSpec,
    n: int,
    node: usize,
    edges: Seq<(usize, usize)>,
)
    requires
        shape.voice_topological(),
        fed_right(r, edges, n),
        node < n,
        shape.num_source_outputs == r.out_counts@[d.source as int],
        shape.shared.len() <= all_chosen(r.order@, d.shared).len(),
        shape.voice.len() <= all_chosen(r.order@, d.voice).len(),
        record.inputs@.len() == r.in_srcs@[node as int]@.len(),
        forall|k: int|
            0 <= k < record.inputs@.len() ==> voice_reads_from(
                d,
                r.order@,
                r.in_srcs@[node as int]@[k],
                #[trigger] record.inputs@[k],
            ) && match record.inputs@[k] {
                VoiceSource::Shared(rec, _) => rec < shape.shared.len(),
                VoiceSource::Voice(rec, _) => rec < shape.voice.len(),
                _ => true,
            },
        forall|j: int|
            0 <= j < shape.shared.len() ==> (#[trigger] shape.shared[j]).num_outputs
                == r.out_counts@[all_chosen(r.order@, d.shared)[j] as int],
        forall|j: int|
            0 <= j < shape.voice.len() ==> (#[trigger] shape.voice[j]).num_outputs
                == r.out_counts@[all_chosen(r.order@, d.voice)[j] as int],
    ensures
        (VoicedShape { voice: shape.voice.push(record), ..shape }).voice_topological(),
{
    let all = VoicedShape { voice: shape.voice.push(record), ..shape };
    assert forall|m: int, k: int|
        #![trigger all.voice[m].inputs@[k]]
        0 <= m < all.voice.len() && 0 <= k < all.voice[m].inputs@.len() implies match all.voice[m].inputs@[k] {
        VoiceSource::Shared(rec, port) => rec < all.shared.len() && port
            < all.shared[rec as int].num_outputs,
        VoiceSource::SourceOut(port) => port < all.num_source_outputs,
        VoiceSource::Voice(rec, port) => rec < m && port < all.voice[rec as int].num_outputs,
        VoiceSource::Zero => true,
    } by {
        if m < shape.voice.len() {
            assert(shape.voice[m].inputs@[k] == all.voice[m].inputs@[k]);
        } else {
            assert(voice_reads_from(
                d,
                r.order@,
                r.in_srcs@[node as int]@[k],
                record.inputs@[k],
            ));
            match record.inputs@[k] {
                VoiceSource::Shared(rec, port) => {
                    assert(shape.shared[rec as int].num_outputs == r.out_counts@[all_chosen(
                        r.order@,
                        d.shared,
                    )[rec as int] as int]);
                },
                VoiceSource::Voice(rec, port) => {
                    assert(shape.voice[rec as int].num_outputs == r.out_counts@[all_chosen(
                        r.order@,
                        d.voice,
                    )[rec as int] as int]);
                },
                _ => {},
            }
        }
    }
}

/// More shared records do not spoil what the voice records read.
proof fn lemma_shared_push(shape: VoicedShape, record: RecordSpec)
    requires
        shape.voice_topological(),
    ensures
        (VoicedShape { shared: shape.shared.push(record), ..shape }).voice_topological(),
{
    let all = VoicedShape { shared: shape.shared.push(record), ..shape };
    assert forall|m: int, k: int|
        #![trigger all.voice[m].inputs@[k]]
        0 <= m < all.voice.len() && 0 <= k < all.voice[m].inputs@.len() implies match all.voice[m].inputs@[k] {
        VoiceSource::Shared(rec, port) => rec < all.shared.len() && port
            < all.shared[rec as int].num_outputs,
        VoiceSource::SourceOut(port) => port < all.num_source_outputs,
        VoiceSource::Voice(rec, port) => rec < m && port < all.voice[rec as int].num_outputs,
        VoiceSource::Zero => true,
    } by {
        assert(shape.voice[m].inputs@[k] == all.voice[m].inputs@[k]);
    }
}

/// What has been compiled of the first `n` nodes of the order.
spec fn compiled<M: ModuleType, S: SourceType>(
    registry: Registry<M, S>,
    nodes: Seq<Node>,
    r: Resolved,
    d: Division,
    n: int,
    fns: Seq<M>,
    shared: Seq<RecordSpec>,
    voice: Seq<VoiceRecordSpec>,
    templates: Seq<Vec<u8>>,
) -> bool {
    let shared_list = all_chosen(r.order@, d.shared);
    let voice_list = all_chosen(r.order@, d.voice);
    &&& shared.len() == chosen(r.order@, d.shared, n).len()
    &&& voice.len() == chosen(r.order@, d.voice, n).len()
    &&& fns.len() <= shared.len() + voice.len()
    &&& topological(shared)
    &&& (VoicedShape {
        block_size: 0,
        shared,
        num_source_outputs: r.out_counts@[d.source as int] as int,
        voice,
        max_voices: 0,
    }).voice_topological()
    &&& forall|j: int|
        0 <= j < shared.len() ==> is_record(
            registry,
            nodes,
            r,
            shared_list,
            fns,
            shared_list[j],
            #[trigger] shared[j],
        )
    &&& forall|j: int|
        0 <= j < voice.len() ==> is_voice_record(
            registry,
            nodes,
            r,
            d,
            fns,
            voice_list[j],
            #[trigger] voice[j],
        )
    &&& templates.len() == voice.len()
    &&& forall|j: int| 0 <= j < voice.len() ==> (#[trigger] templates[j])@ == voice[j].state@
}

/// Everything that a node reads has its place by the node's turn.
proof fn lemma_located(
    r: Resolved,
    d: Division,
    edges: Seq<(usize, usize)>,
    n: int,
    i: int,
    shared_rec: Seq<usize>,
    voice_rec: Seq<usize>,
    p: usize,
)
    requires
        dependency_order(r.order@, edges, n),
        n <= usize::MAX,
        0 <= i <= n,
        d.voice.len() == n,
        d.shared.len() == n,
        placed(r.order@, d.shared, i, shared_rec),
        placed(r.order@, d.voice, i, voice_rec),
        p < n,
        p != r.sink,
        i < n ==> edges.contains((p, r.order@[i])),
        forall|v: int|
            0 <= v < n ==> #[trigger] d.shared[v] == (v != r.sink && v != d.source && !d.voice[v]),
    ensures
        located(d, r.order@, i, shared_rec, voice_rec, p),
{
    let at = lemma_order_complete(r.order@, edges, n, p);
    if i < n {
        assert(edges.contains((r.order@[at], r.order@[i])));
    }
    assert(d.shared[p as int] == (p != r.sink && p != d.source && !d.voice[p as int]));
}

/// The records of a patch with a voice source: nodes downstream of the source become per-voice
/// records, the rest shared records.
#[verifier::rlimit(60)]
#[verifier::spinoff_prover]
pub(crate) fn poly_records<M: ModuleType + Copy, S: SourceType, F: Fn(FloatOp) -> u64>(
    patch: &Patch,
    registry: &Registry<M, S>,
    r: &Resolved,
    source: usize,
    Ghost(fp): Ghost<F>,
) -> (p: PolyRecords<M>)
    requires
        resolves_to(*patch, *registry, fp, *r),
        registry_ready(*registry),
        consistent_nodes(*registry, patch.nodes@, r.sink as int),
        one_source(*registry, patch.nodes@, source),
        source < patch.nodes@.len(),
    ensures
        compiles_to(*registry, patch.nodes@, *r, source, p),
        topological(p.shared@),
        poly_shape(p, 0, r.out_counts@[source as int] as int, 0).voice_topological(),
        p.fns@.len() <= p.shared@.len() + p.voice@.len(),
        p.fns@.len() <= u32::MAX ==> all_runnable(
            p.fns@,
            poly_shape(p, 0, r.out_counts@[source as int] as int, 0),
        ),
{
    let n: usize = patch.nodes.len();
    let ghost nodes = patch.nodes@;
    let ghost order = r.order@;
    let ghost sink = r.sink;
    let ghost d = division(*r, source);
    let ghost edges = hop_edges(patch_hops(*patch, *registry, fp));
    let is_voice = voice_nodes(&r.in_srcs, source, r.sink);
    let mut fns: Vec<M> = Vec::new();
    let mut types: Vec<String> = Vec::new();
    let mut shared: Vec<RecordSpec> = Vec::new();
    let mut voice: Vec<VoiceRecordSpec> = Vec::new();
    let mut template_states: Vec<Vec<u8>> = Vec::new();
    let mut shared_rec: Vec<usize> = vec![usize::MAX;n];
    let mut voice_rec: Vec<usize> = vec![usize::MAX;n];
    proof {
        lemma_fed_right(*patch, *registry, fp, *r);
        assert(is_voice@ =~= d.voice);
        lemma_apart(*r, source);
    }
    let mut i: usize = 0;
    while i < r.order.len()
        invariant
            i <= r.order.len() == n,
            n == nodes.len(),
            nodes == patch.nodes@,
            order == r.order@,
            sink == r.sink,
            sink < n,
            source < n,
            d == division(*r, source),
            d.voice == is_voice@,
            d.voice.len() == n,
            d.shared.len() == n,
            !d.voice[sink as int],
            !d.voice[source as int],
            forall|v: int|
                0 <= v < n ==> #[trigger] d.shared[v] == (v != sink && v != source && !d.voice[v]),
            resolves_to(*patch, *registry, fp, *r),
            registry_ready(*registry),
            consistent_nodes(*registry, nodes, sink as int),
            one_source(*registry, nodes, source),
            edges == hop_edges(patch_hops(*patch, *registry, fp)),
            fed_right(*r, edges, n as int),
            r.out_counts@[sink as int] == 0,
            dependency_order(order, edges, n as int),
            shared_rec.len() == n,
            voice_rec.len() == n,
            placed(order, d.shared, i as int, shared_rec@),
            placed(order, d.voice, i as int, voice_rec@),
            table_right(*registry, fns@, spelled(types@)),
            compiled(
                *registry,
                nodes,
                *r,
                d,
                i as int,
                fns@,
                shared@,
                voice@,
                template_states@,
            ),
        decreases r.order.len() - i,
    {
        let node: usize = r.order[i];
        let ghost shared_rec0 = shared_rec@;
        let ghost voice_rec0 = voice_rec@;
        let ghost fns0 = fns@;
        let ghost shared0 = shared@;
        let ghost voice0 = voice@;
        let ghost templates0 = template_states@;
        proof {
            assert(order[i as int] < n);
            lemma_chosen_prefix(order, d.shared, i as int, order.len() as int);
            lemma_chosen_prefix(order, d.voice, i as int, order.len() as int);
        }
        if node != r.sink && node != source {
            let nd = &patch.nodes[node];
            proof {
                lemma_record_runs(*patch, *registry, fp, *r, node as int);
                assert forall|k: int|
                    0 <= k < r.in_srcs@[node as int]@.len() implies match #[trigger] r.in_srcs@[node as int]@[k] {
                    Some((p, port)) => located(
                        d,
                        order,
                        i as int,
                        shared_rec@,
                        voice_rec@,
                        p,
                    ),
                    None => true,
                } by {
                    if let Some((p, port)) = r.in_srcs@[node as int]@[k] {
                        lemma_located(
                            *r,
                            d,
                            edges,
                            n as int,
                            i as int,
                            shared_rec@,
                            voice_rec@,
                            p,
                        );
                    }
                }
            }
            let entry = registry.get(nd.ty.as_str());
            match entry {
                Some(entry) => {
                    let module = entry.module;
                    let index: usize = table_index(registry, &mut fns, &mut types, &nd.ty, module);
                    let state = module.init_state(&nd.params);
                    let params = module.init_params(&nd.params);
                    let fn_index: u32 = #[verifier::truncate]
                    (index as u32);
                    let num_outputs: usize = r.out_counts[node];
                    if is_voice[node] {
                        let inputs = voice_inputs(
                            &r.in_srcs[node],
                            source,
                            &is_voice,
                            &shared_rec,
                            &voice_rec,
                            Ghost(d),
                            Ghost(order),
                            Ghost(i as int),
                        );
                        let at: usize = voice.len();
                        voice_rec.set(node, at);
                        let template: Vec<u8> = read_bytes(&state, 0, state.len());
                        assert(template@ =~= state@);
                        let record = VoiceRecordSpec {
                            fn_index,
                            state,
                            params,
                            inputs,
                            num_outputs,
                        };
                        template_states.push(template);
                        voice.push(record);
                        proof {
                            lemma_chosen_next(order, d.voice, i as int);
                            lemma_voice_step(
                                *registry,
                                nodes,
                                *r,
                                d,
                                i as int,
                                (fns0, fns@),
                                shared0,
                                voice0,
                                templates0,
                                record,
                                template,
                                edges,
                            );
                        }
                    } else {
                        proof {
                            assert forall|k: int|
                                0 <= k
                                    < r.in_srcs@[node as int]@.len() implies match #[trigger] r.in_srcs@[node as int]@[k] {
                                Some((p, port)) => p < shared_rec.len() && shared_rec@[p as int]
                                    < shared0.len() && all_chosen(
                                    order,
                                    d.shared,
                                )[shared_rec@[p as int] as int] == p,
                                None => true,
                            } by {
                                if let Some((p, port)) = r.in_srcs@[node as int]@[k] {
                                    lemma_shared_closed(*r, source, node, k);
                                    assert(located(
                                        d,
                                        order,
                                        i as int,
                                        shared_rec@,
                                        voice_rec@,
                                        p,
                                    ));
                                }
                            }
                        }
                        let inputs = record_inputs(
                            &r.in_srcs[node],
                            &shared_rec,
                            Ghost(all_chosen(order, d.shared)),
                            Ghost(shared0.len() as int),
                        );
                        let at: usize = shared.len();
                        shared_rec.set(node, at);
                        let record = RecordSpec { fn_index, state, params, inputs, num_outputs };
                        shared.push(record);
                        proof {
                            lemma_chosen_next(order, d.shared, i as int);
                            lemma_shared_step(
                                *registry,
                                nodes,
                                *r,
                                d,
                                i as int,
                                (fns0, fns@),
                                shared0,
                                voice0,
                                templates0,
                                record,
                                edges,
                            );
                        }
                    }
                },
                None => {
                    assert(false);
                },
            }
        }
        proof {
            lemma_placed(order, d.shared, i as int, shared_rec0, shared_rec@);
            lemma_placed(order, d.voice, i as int, voice_rec0, voice_rec@);
        }
        i = i + 1;
    }
    proof {
        assert forall|k: int|
            0 <= k < r.in_srcs@[sink as int]@.len() implies match #[trigger] r.in_srcs@[sink as int]@[k] {
            Some((p, port)) => located(d, order, n as int, shared_rec@, voice_rec@, p),
            None => true,
        } by {
            if let Some((p, port)) = r.in_srcs@[sink as int]@[k] {
                lemma_located(*r, d, edges, n as int, n as int, shared_rec@, voice_rec@, p);
            }
        }
    }
    let fed = voice_sink_feeds(
        &r.in_srcs[r.sink],
        source,
        &is_voice,
        &shared_rec,
        &voice_rec,
        Ghost(d),
        Ghost(order),
    );
    let p = PolyRecords { shared, voice, template_states, fns, sink: fed };
    proof {
        let shape = poly_shape(p, 0, r.out_counts@[source as int] as int, 0);
        if p.fns@.len() <= u32::MAX {
            assert forall|j: int| 0 <= j < shape.shared.len() implies runnable(
                p.fns@,
                #[trigger] shape.shared[j],
            ) by {
                let at = lemma_chosen_from(order, d.shared, order.len() as int, j);
                let list = all_chosen(order, d.shared);
                lemma_record_runs(*patch, *registry, fp, *r, list[j] as int);
                assert(is_record(*registry, nodes, *r, list, p.fns@, list[j], shared@[j]));
            }
            assert forall|j: int| 0 <= j < shape.voice.len() implies voice_runnable(
                p.fns@,
                #[trigger] shape.voice[j],
            ) by {
                let at = lemma_chosen_from(order, d.voice, order.len() as int, j);
                let list = all_chosen(order, d.voice);
                lemma_record_runs(*patch, *registry, fp, *r, list[j] as int);
                assert(is_voice_record(*registry, nodes, *r, d, p.fns@, list[j], voice@[j]));
            }
        }
    }
    p
}

/// The source and the sink are not per voice.
proof fn lemma_apart(r: Resolved, source: usize)
    requires
        source < r.in_srcs@.len(),
        r.sink < r.in_srcs@.len(),
    ensures
        !division(r, source).voice[r.sink as int],
        !division(r, source).voice[source as int],
{
    let srcs = src_views(r.in_srcs@);
    if downstream(srcs, source, r.sink, r.sink) {
        lemma_downstream_node(srcs, source, r.sink, r.sink);
    }
    if downstream(srcs, source, r.sink, source) {
        lemma_downstream_node(srcs, source, r.sink, source);
    }
}

/// One more voice record.
proof fn lemma_voice_step<M: ModuleType, S: SourceType>(
    registry: Registry<M, S>,
    nodes: Seq<Node>,
    r: Resolved,
    d: Division,
    n: int,
    fns: (Seq<M>, Seq<M>),
    shared: Seq<RecordSpec>,
    voice: Seq<VoiceRecordSpec>,
    templates: Seq<Vec<u8>>,
    record: VoiceRecordSpec,
    template: Vec<u8>,
    edges: Seq<(usize, usize)>,
)
    requires
        0 <= n < r.order@.len(),
        compiled(registry, nodes, r, d, n, fns.0, shared, voice, templates),
        fns.0.len() <= fns.1.len() <= fns.0.len() + 1,
        forall|k: int| 0 <= k < fns.0.len() ==> #[trigger] fns.1[k] == fns.0[k],
        d.voice[r.order@[n] as int],
        !d.shared[r.order@[n] as int],
        r.order@[n] < nodes.len(),
        fed_right(r, edges, nodes.len() as int),
        is_voice_record(registry, nodes, r, d, fns.1, r.order@[n], record),
        forall|k: int|
            0 <= k < record.inputs@.len() ==> match #[trigger] record.inputs@[k] {
                VoiceSource::Shared(rec, _) => rec < shared.len(),
                VoiceSource::Voice(rec, _) => rec < voice.len(),
                _ => true,
            },
        template@ == record.state@,
    ensures
        compiled(
            registry,
            nodes,
            r,
            d,
            n + 1,
            fns.1,
            shared,
            voice.push(record),
            templates.push(template),
        ),
{
    let node = r.order@[n];
    let shared_list = all_chosen(r.order@, d.shared);
    let voice_list = all_chosen(r.order@, d.voice);
    lemma_chosen_next(r.order@, d.voice, n);
    lemma_chosen_prefix(r.order@, d.shared, n, r.order@.len() as int);
    lemma_chosen_prefix(r.order@, d.voice, n, r.order@.len() as int);
    let shape = VoicedShape {
        block_size: 0,
        shared,
        num_source_outputs: r.out_counts@[d.source as int] as int,
        voice,
        max_voices: 0,
    };
    assert forall|j: int| 0 <= j < shape.shared.len() implies (#[trigger] shape.shared[j]).num_outputs
        == r.out_counts@[shared_list[j] as int] by {
        assert(is_record(registry, nodes, r, shared_list, fns.0, shared_list[j], shared[j]));
    }
    assert forall|j: int| 0 <= j < shape.voice.len() implies (#[trigger] shape.voice[j]).num_outputs
        == r.out_counts@[voice_list[j] as int] by {
        assert(is_voice_record(registry, nodes, r, d, fns.0, voice_list[j], voice[j]));
    }
    lemma_voice_topological_push(r, d, shape, record, nodes.len() as int, node, edges);
    assert forall|j: int| 0 <= j < shared.len() implies is_record(
        registry,
        nodes,
        r,
        shared_list,
        fns.1,
        shared_list[j],
        #[trigger] shared[j],
    ) by {
        assert(is_record(registry, nodes, r, shared_list, fns.0, shared_list[j], shared[j]));
    }
    let all = voice.push(record);
    assert forall|j: int| 0 <= j < all.len() implies is_voice_record(
        registry,
        nodes,
        r,
        d,
        fns.1,
        voice_list[j],
        #[trigger] all[j],
    ) by {
        if j < voice.len() {
            assert(is_voice_record(registry, nodes, r, d, fns.0, voice_list[j], voice[j]));
        }
    }
    let ts = templates.push(template);
    assert forall|j: int| 0 <= j < all.len() implies (#[trigger] ts[j])@ == all[j].state@ by {
        if j < voice.len() {
            assert(templates[j]@ == voice[j].state@);
        }
    }
}

/// One more shared record.
proof fn lemma_shared_step<M: ModuleType, S: SourceType>(
    registry: Registry<M, S>,
    nodes: Seq<Node>,
    r: Resolved,
    d: Division,
    n: int,
    fns: (Seq<M>, Seq<M>),
    shared: Seq<RecordSpec>,
    voice: Seq<VoiceRecordSpec>,
    templates: Seq<Vec<u8>>,
    record: RecordSpec,
    edges: Seq<(usize, usize)>,
)
    requires
        0 <= n < r.order@.len(),
        compiled(registry, nodes, r, d, n, fns.0, shared, voice, templates),
        fns.0.len() <= fns.1.len() <= fns.0.len() + 1,
        forall|k: int| 0 <= k < fns.0.len() ==> #[trigger] fns.1[k] == fns.0[k],
        d.shared[r.order@[n] as int],
        !d.voice[r.order@[n] as int],
        r.order@[n] < nodes.len(),
        fed_right(r, edges, nodes.len() as int),
        is_record(
            registry,
            nodes,
            r,
            all_chosen(r.order@, d.shared),
            fns.1,
            r.order@[n],
            record,
        ),
        forall|k: int|
            0 <= k < record.inputs@.len() ==> match #[trigger] record.inputs@[k] {
                Source::Port(rec, _) => rec < shared.len(),
                Source::Zero => true,
            },
    ensures
        compiled(registry, nodes, r, d, n + 1, fns.1, shared.push(record), voice, templates),
{
    let node = r.order@[n];
    let shared_list = all_chosen(r.order@, d.shared);
    let voice_list = all_chosen(r.order@, d.voice);
    lemma_chosen_next(r.order@, d.shared, n);
    lemma_chosen_prefix(r.order@, d.shared, n, r.order@.len() as int);
    lemma_chosen_prefix(r.order@, d.voice, n, r.order@.len() as int);
    let shape = VoicedShape {
        block_size: 0,
        shared,
        num_source_outputs: r.out_counts@[d.source as int] as int,
        voice,
        max_voices: 0,
    };
    assert forall|j: int| 0 <= j < shared.len() implies (#[trigger] shared[j]).num_outputs
        == r.out_counts@[shared_list[j] as int] by {
        assert(is_record(registry, nodes, r, shared_list, fns.0, shared_list[j], shared[j]));
    }
    lemma_topological_push(r, shared, record, shared_list, nodes.len() as int, node, edges);
    lemma_shared_push(shape, record);
    let all = shared.push(record);
    assert forall|j: int| 0 <= j < all.len() implies is_record(
        registry,
        nodes,
        r,
        shared_list,
        fns.1,
        shared_list[j],
        #[trigger] all[j],
    ) by {
        if j < shared.len() {
            assert(is_record(registry, nodes, r, shared_list, fns.0, shared_list[j], shared[j]));
        }
    }
    assert forall|j: int| 0 <= j < voice.len() implies is_voice_record(
        registry,
        nodes,
        r,
        d,
        fns.1,
        voice_list[j],
        #[trigger] voice[j],
    ) by {
        assert(is_voice_record(registry, nodes, r, d, fns.0, voice_list[j], voice[j]));
    }
}

/// The voice record of a node runs the node's module, from its initial state and with its parameters,
/// and input `k` reads the very output that is wired to it: that output of the voice source, that port
/// of the shared or of the voice record of the producer, or silence where nothing is wired.
pub proof fn law_voices_read_what_is_wired<M: ModuleType, S: SourceType>(
    registry: Registry<M, S>,
    nodes: Seq<Node>,
    r: Resolved,
    d: Division,
    fns: Seq<M>,
    specs: Seq<VoiceRecordSpec>,
    j: int,
    k: int,
    producer: int,
)
    requires
        are_voice_records(registry, nodes, r, d, fns, specs),
        all_chosen(r.order@, d.voice).no_duplicates(),
        all_chosen(r.order@, d.shared).no_duplicates(),
        0 <= j < all_chosen(r.order@, d.voice).len(),
        0 <= k < r.in_srcs@[all_chosen(r.order@, d.voice)[j] as int]@.len(),
    ensures
        ({
            let voice = all_chosen(r.order@, d.voice);
            let shared = all_chosen(r.order@, d.shared);
            let node = nodes[voice[j] as int];
            let module = registry.modules()[node.ty@].module;
            let wired = r.in_srcs@[voice[j] as int]@[k];
            let read = specs[j].inputs@[k];
            &&& specs.len() == voice.len()
            &&& specs[j].inputs@.len() == r.in_srcs@[voice[j] as int]@.len()
            &&& wired is None ==> read == VoiceSource::Zero
            &&& wired matches Some((from, port)) ==> from == d.source ==> read
                == VoiceSource::SourceOut(port)
            &&& wired matches Some((from, port)) ==> from != d.source && d.voice[from as int] && 0
                <= producer < voice.len() && voice[producer] == from ==> read == VoiceSource::Voice(
                producer as usize,
                port,
            )
            &&& wired matches Some((from, port)) ==> from != d.source && !d.voice[from as int] && 0
                <= producer < shared.len() && shared[producer] == from ==> read
                == VoiceSource::Shared(producer as usize, port)
            &&& specs[j].state@ == module.initial(settings(node.params))
            &&& specs[j].params@ == module.block(settings(node.params))
            &&& specs[j].num_outputs == r.out_counts@[voice[j] as int]
            &&& fns.len() <= u32::MAX ==> fns[specs[j].fn_index as int] == module
        }),
{
    let voice = all_chosen(r.order@, d.voice);
    assert(is_voice_record(registry, nodes, r, d, fns, voice[j], specs[j]));
    let wired = r.in_srcs@[voice[j] as int]@[k];
    assert(voice_reads_from(d, r.order@, wired, specs[j].inputs@[k]));
}

/// A channel of a patch with voices is fed by the very output that is wired to it: that of a voice
/// record, to be summed over the voices, or that of a shared one. A voice source wired straight to a
/// channel is not heard.
pub proof fn law_poly_channels_read_what_is_wired(
    d: Division,
    order: Seq<usize>,
    srcs: Seq<Option<(usize, usize)>>,
    fed: Seq<Option<SinkSrc>>,
    c: int,
    producer: int,
)
    requires
        all_voice_feed(d, order, srcs, fed),
        all_chosen(order, d.voice).no_duplicates(),
        all_chosen(order, d.shared).no_duplicates(),
        0 <= c < srcs.len(),
    ensures
        ({
            let voice = all_chosen(order, d.voice);
            let shared = all_chosen(order, d.shared);
            &&& fed.len() == srcs.len()
            &&& srcs[c] is None ==> fed[c] is None
            &&& srcs[c] matches Some((from, port)) ==> d.voice[from as int] && 0 <= producer
                < voice.len() && voice[producer] == from ==> fed[c] == Some(
                SinkSrc::Voice(producer as usize, port),
            )
            &&& srcs[c] matches Some((from, port)) ==> !d.voice[from as int] && from == d.source
                ==> fed[c] is None
            &&& srcs[c] matches Some((from, port)) ==> !d.voice[from as int] && from != d.source && 0
                <= producer < shared.len() && shared[producer] == from ==> fed[c] == Some(
                SinkSrc::Shared(producer as usize, port),
            )
        }),
{
    assert(voice_feeds(d, order, srcs[c], fed[c]));
}

/// Every node is one of four: the sink, the voice source, one that a voice reaches, or a shared one. A
/// node is per voice if and only if it reads the source or another node that is per voice, and is
/// neither the sink nor the source.
pub proof fn law_nodes_are_divided(r: Resolved, source: usize, v: usize)
    requires
        v < r.in_srcs@.len() <= usize::MAX,
    ensures
        ({
            let d = division(r, source);
            let srcs = src_views(r.in_srcs@);
            &&& d.source == source
            &&& d.voice[v as int] ==> v != r.sink && v != source && !d.shared[v as int]
            &&& !d.voice[v as int] && v != r.sink && v != source ==> d.shared[v as int]
            &&& v == r.sink || v == source ==> !d.shared[v as int]
            &&& v != r.sink && v != source && feeds_node(srcs, source, v) ==> d.voice[v as int]
            &&& forall|u: usize|
                u < r.in_srcs@.len() && #[trigger] d.voice[u as int] && v != r.sink && v != source
                    && feeds_node(srcs, u, v) ==> d.voice[v as int]
            &&& d.voice[v as int] ==> feeds_node(srcs, source, v) || exists|u: usize|
                #[trigger] downstream(srcs, source, r.sink, u) && feeds_node(srcs, u, v)
        }),
{
    let d = division(r, source);
    let srcs = src_views(r.in_srcs@);
    let sink = r.sink;
    if d.voice[v as int] {
        lemma_downstream_node(srcs, source, sink, v);
        let walk = choose|walk: Seq<usize>| #[trigger]
            voice_walk(srcs, source, sink, walk) && walk[walk.len() - 1] == v;
        let n = walk.len() as int;
        assert(walk_step(srcs, source, sink, walk, n - 2));
        if n > 2 {
            let less = walk.drop_last();
            assert forall|i: int| 0 <= i < less.len() - 1 implies #[trigger] walk_step(
                srcs,
                source,
                sink,
                less,
                i,
            ) by {
                assert(walk_step(srcs, source, sink, walk, i));
            }
            assert(voice_walk(srcs, source, sink, less));
            let u = walk[n - 2];
            assert(less[less.len() - 1] == u);
            assert(downstream(srcs, source, sink, u));
        }
    }
    if v != sink && v != source && feeds_node(srcs, source, v) {
        lemma_downstream_step(srcs, source, sink, source, v);
    }
    assert forall|u: usize|
        u < r.in_srcs@.len() && #[trigger] d.voice[u as int] && v != sink && v != source
            && feeds_node(srcs, u, v) implies d.voice[v as int] by {
        lemma_downstream_step(srcs, source, sink, u, v);
    }
}

} // verus!
