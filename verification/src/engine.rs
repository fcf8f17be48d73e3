//! The engine: compiles a [`Patch`] into a runnable graph and produces audio blocks.
//!
//! Each call to [`Engine::process_block`] is one tick: every node is evaluated once in
//! dependency order (its output cached), then the audio-output sink's input buffers are
//! interleaved into the device buffer.

use vstd::prelude::*;
use crate::blocks::{block_frames, interleaved, law_frames_are_interleaved, lemma_interleaved, lemma_none_written, lemma_written_to, put_channel, silence, start_time, written_to};
use crate::compile::lemma_last_producer;
use crate::float::{FloatOp, ZERO, apply, is_float_unit};
use crate::graph::{cyclic, dependency_order, nodes_once, topo_sort};
use crate::model::{Node, Patch, settings};
use crate::processing::{CtxView, Module, ModuleCtx, PrepareCfg, Step, samples};
use crate::registry::{Factory, Registry, created, factories_ready};
use crate::resolve::{ErrorView, collect_producers, error_text, find_sink, producers, rate, read_rate, sink_from, wire_error};
use crate::text::{joined, joined3, spelled, spelled_lists};
use crate::wiring::{FaultView, Hop, Net, WireFault, edges_of, hop_edges, hop_in, node_ids, resolve_wires, resolved_wires};

verus! {

/// Why a patch cannot be compiled.
#[derive(Debug)]
pub enum EngineError {
    Build { node: String, msg: String },
    UnknownNode(String),
    UnknownPort { node: String, port: String },
    NoAudioOutput,
    Cycle,
}

impl View for EngineError {
    type V = ErrorView;

    open spec fn view(&self) -> ErrorView {
        match self {
            EngineError::Build { node, msg } => ErrorView::Build { node: node@, msg: msg@ },
            EngineError::UnknownNode(n) => ErrorView::UnknownNode(n@),
            EngineError::UnknownPort { node, port } => ErrorView::UnknownPort {
                node: node@,
                port: port@,
            },
            EngineError::NoAudioOutput => ErrorView::NoAudioOutput,
            EngineError::Cycle => ErrorView::Cycle,
        }
    }
}

impl EngineError {
    /// The error as shown to the user.
    pub fn message(&self) -> (text: String)
        ensures
            text@ == error_text(self@),
    {
        match self {
            EngineError::Build { node, msg } => {
                let head: String = joined3("node '", node.as_str(), "': ");
                joined(head.as_str(), msg.as_str())
            },
            EngineError::UnknownNode(n) => joined3(
                "wire references unknown node '",
                n.as_str(),
                "'",
            ),
            EngineError::UnknownPort { node, port } => {
                let head: String = joined3("node '", node.as_str(), "' has no port '");
                joined3(head.as_str(), port.as_str(), "'")
            },
            EngineError::NoAudioOutput => "patch has no audio_output node".to_owned(),
            EngineError::Cycle =>
                "patch graph has a cycle (feedback is not yet supported)".to_owned(),
        }
    }
}

/// A compiled, runnable patch.
pub struct Engine<K: Factory, F: Fn(FloatOp) -> u64> {
    modules: Vec<K::Module>,
    order: Vec<usize>,
    /// node -> input-port-index -> (node, output-port-index) of the source (None = unconnected)
    in_srcs: Vec<Vec<Option<(usize, usize)>>>,
    /// node -> output-port-index -> buffer
    pool: Vec<Vec<Vec<u32>>>,
    sink: usize,
    channels: usize,
    sample_rate: u32,
    capacity: usize,
    elapsed_frames: u64,
    fp: F,
}

/// What a tick changes: the modules, and the buffers of their outputs.
#[verifier::ext_equal]
pub struct Running<M> {
    pub modules: Seq<M>,
    pub pool: Seq<Seq<Seq<u32>>>,
}

/// The contents of an [`Engine`].
#[verifier::ext_equal]
pub struct GraphView<M, F: Fn(FloatOp) -> u64> {
    pub running: Running<M>,
    pub order: Seq<usize>,
    pub in_srcs: Seq<Seq<Option<(usize, usize)>>>,
    pub sink: usize,
    pub channels: usize,
    pub sample_rate: u32,
    /// The largest number of frames of a block.
    pub capacity: usize,
    /// Frames rendered so far.
    pub elapsed: u64,
    pub fp: F,
}

/// What an input reads: the first samples of its source's buffer, or silence.
pub open spec fn heard(
    pool: Seq<Seq<Seq<u32>>>,
    src: Option<(usize, usize)>,
    frames: int,
) -> Seq<u32> {
    match src {
        Some((node, port)) => pool[node as int][port as int].take(frames),
        None => silence(frames),
    }
}

/// What the module of a node sees.
pub open spec fn node_ctx<M>(
    r: Running<M>,
    srcs: Seq<Option<(usize, usize)>>,
    node: int,
    frames: usize,
    sample_rate: u32,
    time: u64,
) -> CtxView {
    CtxView {
        frames,
        sample_rate,
        time,
        inputs: Seq::new(srcs.len(), |k: int| heard(r.pool, srcs[k], frames as int)),
        outputs: Seq::new(
            r.pool[node].len(),
            |k: int| r.pool[node][k].take(frames as int),
        ),
    }
}

/// One node has been evaluated: its module has moved on, and the first samples of its output
/// buffers are new.
pub open spec fn ran<M: Module>(
    r: Running<M>,
    srcs: Seq<Option<(usize, usize)>>,
    node: int,
    frames: usize,
    sample_rate: u32,
    time: u64,
) -> Running<M> {
    let s = r.modules[node].step(node_ctx(r, srcs, node, frames, sample_rate, time));
    Running {
        modules: r.modules.update(node, s.module),
        pool: r.pool.update(
            node,
            Seq::new(
                r.pool[node].len(),
                |k: int| s.outputs[k] + r.pool[node][k].skip(frames as int),
            ),
        ),
    }
}

/// The first `n` nodes of the order have been evaluated.
pub open spec fn ticked<M: Module>(
    r: Running<M>,
    in_srcs: Seq<Seq<Option<(usize, usize)>>>,
    order: Seq<usize>,
    frames: usize,
    sample_rate: u32,
    time: u64,
    n: int,
) -> Running<M>
    decreases n,
{
    if n <= 0 {
        r
    } else {
        let node = order[n - 1] as int;
        ran(
            ticked(r, in_srcs, order, frames, sample_rate, time, n - 1),
            in_srcs[node],
            node,
            frames,
            sample_rate,
            time,
        )
    }
}

/// What the channels carry: what the sink's inputs read.
pub open spec fn sink_channels(
    pool: Seq<Seq<Seq<u32>>>,
    srcs: Seq<Option<(usize, usize)>>,
    frames: int,
) -> Seq<Seq<u32>> {
    Seq::new(srcs.len(), |c: int| heard(pool, srcs[c], frames))
}

/// An engine once it has rendered a block: every node has been evaluated in dependency order, and
/// time has advanced by the length of the block.
pub open spec fn played<M: Module, F: Fn(FloatOp) -> u64>(
    v: GraphView<M, F>,
    frames: usize,
) -> GraphView<M, F> {
    let n = block_frames(frames, v.capacity);
    GraphView {
        running: ticked(
            v.running,
            v.in_srcs,
            v.order,
            n,
            v.sample_rate,
            start_time(v.fp, v.elapsed, v.sample_rate),
            v.order.len() as int,
        ),
        elapsed: (v.elapsed + n) as u64,
        ..v
    }
}

/// The device buffer once an engine has rendered a block into it.
pub open spec fn played_into<M: Module, F: Fn(FloatOp) -> u64>(
    v: GraphView<M, F>,
    device: Seq<u32>,
    frames: usize,
) -> Seq<u32> {
    let n = block_frames(frames, v.capacity) as int;
    interleaved(
        device,
        sink_channels(played(v, frames).running.pool, v.in_srcs[v.sink as int], n),
        n,
    )
}

/// What an engine adds to its stream with a block of `frames` frames: the sink's inputs,
/// interleaved.
pub open spec fn fresh<M: Module, F: Fn(FloatOp) -> u64>(
    v: GraphView<M, F>,
    frames: usize,
) -> Seq<u32> {
    let n = v.in_srcs[v.sink as int].len();
    let channels = sink_channels(
        played(v, frames).running.pool,
        v.in_srcs[v.sink as int],
        frames as int,
    );
    Seq::new(
        (frames * n) as nat,
        |p: int| channels[p % n as int][p / n as int],
    )
}

/// An engine once it has rendered the first `k` of some blocks.
pub open spec fn after_blocks<M: Module, F: Fn(FloatOp) -> u64>(
    v: GraphView<M, F>,
    lens: Seq<usize>,
    k: int,
) -> GraphView<M, F>
    decreases k,
{
    if k <= 0 {
        v
    } else {
        played(after_blocks(v, lens, k - 1), lens[k - 1])
    }
}

/// The engine's interleaved stream over the first `k` of some blocks.
pub open spec fn stream<M: Module, F: Fn(FloatOp) -> u64>(
    v: GraphView<M, F>,
    lens: Seq<usize>,
    k: int,
) -> Seq<u32>
    decreases k,
{
    if k <= 0 {
        Seq::empty()
    } else {
        stream(v, lens, k - 1) + fresh(after_blocks(v, lens, k - 1), lens[k - 1])
    }
}

/// Number of frames of the first `k` of some blocks.
pub open spec fn frames_of(lens: Seq<usize>, k: int) -> int
    decreases k,
{
    if k <= 0 {
        0
    } else {
        frames_of(lens, k - 1) + lens[k - 1]
    }
}

/// There is a buffer for every output, and every input reads one or nothing.
pub open spec fn runnable_graph<M: Module>(
    modules: Seq<M>,
    in_srcs: Seq<Seq<Option<(usize, usize)>>>,
    pool: Seq<Seq<Seq<u32>>>,
    capacity: int,
) -> bool {
    let n = modules.len();
    &&& in_srcs.len() == n
    &&& pool.len() == n
    &&& forall|i: int| 0 <= i < n ==> fitted(#[trigger] modules[i], in_srcs[i], pool[i])
    &&& forall|i: int, k: int|
        #![trigger pool[i][k]]
        0 <= i < n && 0 <= k < pool[i].len() ==> pool[i][k].len() == capacity
    &&& forall|i: int, k: int|
        #![trigger in_srcs[i][k]]
        0 <= i < n && 0 <= k < in_srcs[i].len() ==> match in_srcs[i][k] {
            Some((node, port)) => node < n && port < pool[node as int].len(),
            None => true,
        }
}

/// The module can be run on that many inputs and outputs.
pub open spec fn fitted<M: Module>(
    module: M,
    srcs: Seq<Option<(usize, usize)>>,
    bufs: Seq<Seq<u32>>,
) -> bool {
    module.able() && srcs.len() == module.ins().len() && bufs.len() == module.outs().len()
}

/// The buffers of one node.
pub open spec fn buffers(bufs: Seq<Vec<Vec<u32>>>) -> Seq<Seq<Seq<u32>>> {
    Seq::new(bufs.len(), |i: int| samples(bufs[i]@))
}

/// A list of lists.
pub open spec fn lists(srcs: Seq<Vec<Option<(usize, usize)>>>) -> Seq<Seq<Option<(usize, usize)>>> {
    Seq::new(srcs.len(), |i: int| srcs[i]@)
}

/// The first `frames` samples of a buffer.
fn head_of(buf: &Vec<u32>, frames: usize) -> (head: Vec<u32>)
    requires
        frames <= buf@.len(),
    ensures
        head@ == buf@.take(frames as int),
{
    let mut head: Vec<u32> = Vec::new();
    let mut i: usize = 0;
    while i < frames
        invariant
            i <= frames <= buf@.len(),
            head@ =~= buf@.take(i as int),
        decreases frames - i,
    {
        head.push(buf[i]);
        i = i + 1;
    }
    head
}

/// Overwrites the first samples of a buffer.
fn put_head(buf: &mut Vec<u32>, head: &Vec<u32>)
    requires
        head@.len() <= old(buf)@.len(),
    ensures
        final(buf)@ == head@ + old(buf)@.skip(head@.len() as int),
{
    let ghost before = buf@;
    let mut i: usize = 0;
    while i < head.len()
        invariant
            i <= head.len(),
            head@.len() <= before.len(),
            buf@.len() == before.len(),
            forall|k: int| 0 <= k < i ==> #[trigger] buf@[k] == head@[k],
            forall|k: int| i <= k < before.len() ==> #[trigger] buf@[k] == before[k],
        decreases head.len() - i,
    {
        buf.set(i, head[i]);
        i = i + 1;
    }
    assert(buf@ =~= head@ + before.skip(head@.len() as int));
}

impl<K: Factory, F: Fn(FloatOp) -> u64> View for Engine<K, F> {
    type V = GraphView<K::Module, F>;

    closed spec fn view(&self) -> GraphView<K::Module, F> {
        GraphView {
            running: Running { modules: self.modules@, pool: buffers(self.pool@) },
            order: self.order@,
            in_srcs: lists(self.in_srcs@),
            sink: self.sink,
            channels: self.channels,
            sample_rate: self.sample_rate,
            capacity: self.capacity,
            elapsed: self.elapsed_frames,
            fp: self.fp,
        }
    }
}

impl<K: Factory, F: Fn(FloatOp) -> u64> Engine<K, F> {
    /// Modules, inputs and buffers go together.
    pub closed spec fn wf(&self) -> bool {
        let v = self@;
        &&& is_float_unit(self.fp)
        &&& runnable_graph(v.running.modules, v.in_srcs, v.running.pool, self.capacity as int)
        &&& forall|k: int|
            0 <= k < self.order@.len() ==> #[trigger] self.order@[k] < self.modules@.len()
        &&& self.sink < self.modules@.len()
        &&& self.channels == v.in_srcs[self.sink as int].len()
    }

    /// The sample rate, as the bit pattern of a single-precision number.
    pub fn sample_rate(&self) -> (r: u32)
        ensures
            r == self@.sample_rate,
    {
        self.sample_rate
    }

    /// The number of output channels.
    pub fn channels(&self) -> (n: usize)
        ensures
            n == self@.channels,
    {
        self.channels
    }

    /// The largest number of frames of a block.
    pub fn capacity(&self) -> (n: usize)
        ensures
            n == self@.capacity,
    {
        self.capacity
    }

    /// The number of frames rendered so far.
    pub fn elapsed(&self) -> (n: u64)
        ensures
            n == self@.elapsed,
    {
        self.elapsed_frames
    }

    /// What a well-formed engine holds.
    pub proof fn lemma_wf(&self)
        requires
            self.wf(),
        ensures
            is_float_unit(self@.fp),
            runnable_graph(
                self@.running.modules,
                self@.in_srcs,
                self@.running.pool,
                self@.capacity as int,
            ),
            forall|k: int|
                0 <= k < self@.order.len() ==> #[trigger] self@.order[k]
                    < self@.running.modules.len(),
            self@.sink < self@.running.modules.len(),
            self@.in_srcs[self@.sink as int].len() == self@.channels,
    {
    }

    /// What an input reads.
    fn hear(&self, src: Option<(usize, usize)>, frames: usize) -> (buf: Vec<u32>)
        requires
            frames <= self.capacity,
            match src {
                Some((node, port)) => node < self.pool@.len() && port < self.pool@[node as int]@.len()
                    && self.pool@[node as int]@[port as int]@.len() == self.capacity,
                None => true,
            },
        ensures
            buf@ == heard(buffers(self.pool@), src, frames as int),
            buf@.len() == frames,
    {
        match src {
            Some((node, port)) => {
                let buf = head_of(&self.pool[node][port], frames);
                assert(buffers(self.pool@)[node as int][port as int]
                    == self.pool@[node as int]@[port as int]@);
                buf
            },
            None => {
                let buf: Vec<u32> = vec![ZERO;frames];
                assert(buf@ =~= silence(frames as int));
                buf
            },
        }
    }

    /// Evaluates one node.
    fn run_node(&mut self, node: usize, frames: usize, time: u64)
        requires
            old(self).wf(),
            node < old(self)@.running.modules.len(),
            frames <= old(self)@.capacity,
        ensures
            final(self).wf(),
            final(self)@ == (GraphView {
                running: ran(
                    old(self)@.running,
                    old(self)@.in_srcs[node as int],
                    node as int,
                    frames,
                    old(self)@.sample_rate,
                    time,
                ),
                ..old(self)@
            }),
    {
        let ghost before = self@;
        let ghost pool = before.running.pool;
        let ghost srcs = before.in_srcs[node as int];
        let ghost expected = node_ctx(
            before.running,
            srcs,
            node as int,
            frames,
            self.sample_rate,
            time,
        );
        proof {
            assert(fitted(before.running.modules[node as int], srcs, pool[node as int]));
            assert(srcs == self.in_srcs@[node as int]@);
            assert(pool[node as int] == samples(self.pool@[node as int]@));
        }
        let mut inputs: Vec<Vec<u32>> = Vec::new();
        let mut k: usize = 0;
        while k < self.in_srcs[node].len()
            invariant
                k <= srcs.len(),
                self@ == before,
                self.wf(),
                frames <= self.capacity,
                node < self.modules@.len(),
                pool == before.running.pool,
                srcs == before.in_srcs[node as int],
                srcs == self.in_srcs@[node as int]@,
                self.in_srcs@.len() == self.modules@.len(),
                inputs@.len() == k,
                forall|i: int|
                    0 <= i < k ==> (#[trigger] inputs@[i])@ == heard(pool, srcs[i], frames as int)
                        && inputs@[i]@.len() == frames,
            decreases srcs.len() - k,
        {
            let src = self.in_srcs[node][k];
            proof {
                assert(before.in_srcs[node as int][k as int] == src);
                if let Some((from, port)) = src {
                    assert(pool[from as int] == samples(self.pool@[from as int]@));
                    assert(pool[from as int][port as int]
                        == self.pool@[from as int]@[port as int]@);
                    assert(pool[from as int][port as int].len() == self.capacity);
                }
            }
            inputs.push(self.hear(src, frames));
            k = k + 1;
        }
        let mut outputs: Vec<Vec<u32>> = Vec::new();
        let num_outputs: usize = self.pool[node].len();
        let mut k: usize = 0;
        while k < num_outputs
            invariant
                k <= num_outputs == pool[node as int].len(),
                self@ == before,
                self.wf(),
                frames <= self.capacity,
                node < self.modules@.len() == self.pool@.len(),
                pool == before.running.pool,
                pool[node as int] == samples(self.pool@[node as int]@),
                outputs@.len() == k,
                forall|i: int|
                    0 <= i < k ==> (#[trigger] outputs@[i])@ == pool[node as int][i].take(
                        frames as int,
                    ) && outputs@[i]@.len() == frames,
            decreases num_outputs - k,
        {
            proof {
                assert(pool[node as int][k as int] == self.pool@[node as int]@[k as int]@);
                assert(pool[node as int][k as int].len() == self.capacity);
            }
            outputs.push(head_of(&self.pool[node][k], frames));
            k = k + 1;
        }
        let mut ctx = ModuleCtx { frames, sample_rate: self.sample_rate, time, inputs, outputs };
        assert(ctx@ =~~= expected);
        let ghost module = self.modules@[node as int];
        let ghost s = module.step(expected);
        let _ = self.modules[node].process(&mut ctx);
        let outputs = ctx.outputs;
        proof {
            assert(samples(outputs@) == s.outputs);
        }
        let ghost moved = self.modules@;
        let mut k: usize = 0;
        while k < num_outputs
            invariant
                k <= num_outputs == pool[node as int].len(),
                outputs@.len() == num_outputs,
                frames <= self.capacity == before.capacity,
                samples(outputs@) == s.outputs,
                forall|i: int| 0 <= i < num_outputs ==> (#[trigger] s.outputs[i]).len() == frames,
                self.pool@.len() == pool.len(),
                node < self.pool@.len(),
                self.pool@[node as int]@.len() == num_outputs,
                forall|i: int|
                    0 <= i < pool.len() && i != node ==> samples((#[trigger] self.pool@[i])@)
                        == pool[i],
                forall|i: int|
                    0 <= i < num_outputs ==> (#[trigger] self.pool@[node as int]@[i])@ == if i < k {
                        s.outputs[i] + pool[node as int][i].skip(frames as int)
                    } else {
                        pool[node as int][i]
                    },
                forall|i: int|
                    0 <= i < num_outputs ==> (#[trigger] pool[node as int][i]).len()
                        == self.capacity,
                self.modules@ == moved,
                self.order@ == before.order,
                lists(self.in_srcs@) == before.in_srcs,
                self.sink == before.sink,
                self.channels == before.channels,
                self.sample_rate == before.sample_rate,
                self.elapsed_frames == before.elapsed,
                self.fp == before.fp,
            decreases num_outputs - k,
        {
            proof {
                assert(samples(outputs@)[k as int] == outputs@[k as int]@);
                assert(pool[node as int][k as int].len() == self.capacity);
                assert(self.pool@[node as int]@[k as int]@ == pool[node as int][k as int]);
            }
            put_head(&mut self.pool[node][k], &outputs[k]);
            k = k + 1;
        }
        proof {
            let after = ran(
                before.running,
                srcs,
                node as int,
                frames,
                before.sample_rate,
                time,
            );
            assert(self.modules@ =~= after.modules);
            assert forall|i: int| 0 <= i < pool.len() implies #[trigger] buffers(self.pool@)[i]
                == after.pool[i] by {
                if i == node {
                    assert(buffers(self.pool@)[i] =~= after.pool[i]);
                } else {
                    assert(samples(self.pool@[i]@) == pool[i]);
                }
            }
            assert(buffers(self.pool@) =~= after.pool);
            lemma_still_runnable(
                before.running,
                after,
                before.in_srcs,
                node as int,
                s,
                frames,
                self.capacity as int,
            );
        }
    }
}

impl<K: Factory, F: Fn(FloatOp) -> u64> Engine<K, F> {
    /// Process one block, writing `frames` interleaved frames into `device`
    /// (`device.len()` must be `frames * channels`).
    pub fn process_block(&mut self, device: &mut Vec<u32>, frames: usize)
        requires
            old(self).wf(),
            block_frames(frames, old(self)@.capacity) * old(self)@.channels <= old(device)@.len(),
            old(self)@.elapsed + block_frames(frames, old(self)@.capacity) <= u64::MAX,
        ensures
            final(self).wf(),
            final(self)@ == played(old(self)@, frames),
            final(device)@ == played_into(old(self)@, old(device)@, frames),
    {
        let ghost v = self@;
        let frames: usize = if frames <= self.capacity {
            frames
        } else {
            self.capacity
        };
        let elapsed: u64 = apply(&self.fp, FloatOp::U64ToF64(self.elapsed_frames));
        let rate: u64 = apply(&self.fp, FloatOp::F32ToF64(self.sample_rate));
        let time: u64 = apply(&self.fp, FloatOp::DivF64(elapsed, rate));
        let mut k: usize = 0;
        while k < self.order.len()
            invariant
                k <= v.order.len(),
                self.wf(),
                frames <= v.capacity,
                self@ == (GraphView {
                    running: ticked(
                        v.running,
                        v.in_srcs,
                        v.order,
                        frames,
                        v.sample_rate,
                        time,
                        k as int,
                    ),
                    ..v
                }),
            decreases v.order.len() - k,
        {
            let node: usize = self.order[k];
            assert(self.order@[k as int] < self.modules@.len());
            self.run_node(node, frames, time);
            k = k + 1;
        }
        self.elapsed_frames = self.elapsed_frames + frames as u64;
        let ghost pool = self@.running.pool;
        let ghost srcs = v.in_srcs[v.sink as int];
        let ghost chans = sink_channels(pool, srcs, frames as int);
        let ghost before = device@;
        let ghost after = self@;
        let channels: usize = self.channels;
        proof {
            lemma_none_written(before, chans, frames as int);
            assert(self.in_srcs@[self.sink as int]@ == srcs);
        }
        // Interleave the sink's per-channel inputs into the device buffer.
        let mut c: usize = 0;
        while c < channels
            invariant
                c <= channels == srcs.len(),
                self.wf(),
                self@ == after,
                self.sink < self.in_srcs@.len(),
                self.in_srcs@[self.sink as int]@ == srcs,
                srcs == after.in_srcs[self.sink as int],
                pool == after.running.pool,
                chans == sink_channels(pool, srcs, frames as int),
                frames <= self.capacity,
                frames * channels <= before.len(),
                device@.len() == before.len(),
                written_to(before, device@, chans, frames as int, c as int),
            decreases channels - c,
        {
            let ghost mid = device@;
            let src = self.in_srcs[self.sink][c];
            proof {
                assert(after.in_srcs[self.sink as int][c as int] == src);
                if let Some((from, port)) = src {
                    assert(pool[from as int] == samples(self.pool@[from as int]@));
                    assert(pool[from as int][port as int]
                        == self.pool@[from as int]@[port as int]@);
                    assert(pool[from as int][port as int].len() == self.capacity);
                }
            }
            let buf = self.hear(src, frames);
            put_channel(device, &buf, channels, c);
            proof {
                lemma_written_to(before, mid, device@, chans, frames as int, c as int);
            }
            c = c + 1;
        }
        proof {
            lemma_interleaved(before, device@, chans, frames as int);
        }
    }
}

/// Evaluating a node keeps modules, inputs and buffers together.
proof fn lemma_still_runnable<M: Module>(
    before: Running<M>,
    after: Running<M>,
    in_srcs: Seq<Seq<Option<(usize, usize)>>>,
    node: int,
    s: Step<M>,
    frames: usize,
    capacity: int,
)
    requires
        runnable_graph(before.modules, in_srcs, before.pool, capacity),
        0 <= node < before.modules.len(),
        frames <= capacity,
        after.modules == before.modules.update(node, s.module),
        after.pool == before.pool.update(
            node,
            Seq::new(
                before.pool[node].len(),
                |k: int| s.outputs[k] + before.pool[node][k].skip(frames as int),
            ),
        ),
        s.module.able(),
        s.module.ins() == before.modules[node].ins(),
        s.module.outs() == before.modules[node].outs(),
        forall|k: int|
            0 <= k < before.pool[node].len() ==> (#[trigger] s.outputs[k]).len() == frames,
    ensures
        runnable_graph(after.modules, in_srcs, after.pool, capacity),
{
    let n = before.modules.len() as int;
    assert forall|i: int| 0 <= i < n implies fitted(
        #[trigger] after.modules[i],
        in_srcs[i],
        after.pool[i],
    ) by {
        assert(fitted(before.modules[i], in_srcs[i], before.pool[i]));
    }
    assert forall|i: int, k: int|
        #![trigger after.pool[i][k]]
        0 <= i < n && 0 <= k < after.pool[i].len() implies after.pool[i][k].len() == capacity by {
        assert(before.pool[i][k].len() == capacity);
        if i == node {
            assert(s.outputs[k].len() == frames);
        }
    }
    assert forall|i: int, k: int|
        #![trigger in_srcs[i][k]]
        0 <= i < n && 0 <= k < in_srcs[i].len() implies match in_srcs[i][k] {
        Some((from, port)) => from < n && port < after.pool[from as int].len(),
        None => true,
    } by {
    }
}

/// What is created for a node, or why nothing is.
pub open spec fn made<K: Factory>(factories: Map<Seq<char>, K>, node: Node) -> Result<
    K::Module,
    Seq<char>,
> {
    created(factories, node.ty@, settings(node.params))
}

/// Index of the first node from `i` on that no module can be created for.
pub open spec fn unmade_from<K: Factory>(
    factories: Map<Seq<char>, K>,
    nodes: Seq<Node>,
    i: int,
) -> Option<int>
    decreases nodes.len() - i,
{
    if i >= nodes.len() {
        None
    } else if made(factories, nodes[i]) is Err {
        Some(i)
    } else {
        unmade_from(factories, nodes, i + 1)
    }
}

/// What the wires of a patch are resolved against: the ports of the modules.
pub open spec fn graph_net<K: Factory>(factories: Map<Seq<char>, K>, nodes: Seq<Node>) -> Net {
    Net {
        ids: node_ids(nodes),
        ins: Seq::new(nodes.len(), |i: int| (made(factories, nodes[i])->Ok_0).ins()),
        outs: Seq::new(nodes.len(), |i: int| (made(factories, nodes[i])->Ok_0).outs()),
    }
}

/// What the wires of a patch resolve to.
pub open spec fn graph_hops<K: Factory>(factories: Map<Seq<char>, K>, patch: Patch) -> Result<
    Seq<Hop>,
    FaultView,
> {
    resolved_wires(
        graph_net(factories, patch.nodes@),
        patch.wires@,
        patch.wires@.len() as int,
    )
}

/// What is wrong with a patch, if anything is: the first node that no module can be created for;
/// else the first wire that cannot be resolved; else a cycle; else no sink.
pub open spec fn graph_fault<K: Factory>(factories: Map<Seq<char>, K>, patch: Patch) -> Option<
    ErrorView,
> {
    let nodes = patch.nodes@;
    match unmade_from(factories, nodes, 0) {
        Some(i) => Some(
            ErrorView::Build { node: nodes[i].id@, msg: made(factories, nodes[i])->Err_0 },
        ),
        None => match graph_hops(factories, patch) {
            Err(fault) => Some(wire_error(fault)),
            Ok(hops) => if cyclic(hop_edges(hops)) {
                Some(ErrorView::Cycle)
            } else if sink_from(nodes, 0) is None {
                Some(ErrorView::NoAudioOutput)
            } else {
                None
            },
        },
    }
}

/// The engine is what the patch compiles to: prepared modules, inputs that read what the wiring
/// brings, silent buffers, and nothing rendered yet.
pub open spec fn graph_of<K: Factory, F: Fn(FloatOp) -> u64>(
    factories: Map<Seq<char>, K>,
    patch: Patch,
    capacity: usize,
    fp: F,
    v: GraphView<K::Module, F>,
) -> bool {
    let nodes = patch.nodes@;
    let n = nodes.len() as int;
    let net = graph_net(factories, nodes);
    let hops = graph_hops(factories, patch)->Ok_0;
    let cfg = PrepareCfg { sample_rate: v.sample_rate, max_frames: capacity };
    &&& v.running == (Running::<K::Module> {
        modules: Seq::new(nodes.len(), |i: int| (made(factories, nodes[i])->Ok_0).prepared(cfg)),
        pool: Seq::new(
            nodes.len(),
            |i: int| Seq::new(net.outs[i].len(), |k: int| silence(capacity as int)),
        ),
    })
    &&& dependency_order(v.order, hop_edges(hops), n)
    &&& v.in_srcs == Seq::new(
        nodes.len(),
        |i: int| producers(hops, i, net.ins[i].len() as int, false),
    )
    &&& sink_from(nodes, 0) == Some(v.sink as int)
    &&& v.channels == net.ins[v.sink as int].len()
    &&& v.sample_rate == rate(settings(nodes[v.sink as int].params), fp)
    &&& v.capacity == capacity
    &&& v.elapsed == 0
    &&& v.fp == fp
}

/// Creates the modules of a patch.
fn create_modules<K: Factory>(nodes: &Vec<Node>, registry: &Registry<K>) -> (res: Result<
    Vec<K::Module>,
    EngineError,
>)
    requires
        factories_ready(registry@),
    ensures
        match res {
            Ok(modules) => {
                &&& unmade_from(registry@, nodes@, 0) is None
                &&& modules@.len() == nodes@.len()
                &&& forall|i: int|
                    0 <= i < nodes@.len() ==> #[trigger] made(registry@, nodes@[i]) == Ok::<
                        K::Module,
                        Seq<char>,
                    >(modules@[i]) && modules@[i].able()
            },
            Err(e) => match unmade_from(registry@, nodes@, 0) {
                Some(i) => e@ == (ErrorView::Build {
                    node: nodes@[i].id@,
                    msg: made(registry@, nodes@[i])->Err_0,
                }),
                None => false,
            },
        },
{
    let mut modules: Vec<K::Module> = Vec::new();
    let mut i: usize = 0;
    while i < nodes.len()
        invariant
            i <= nodes.len(),
            factories_ready(registry@),
            unmade_from(registry@, nodes@, 0) == unmade_from(registry@, nodes@, i as int),
            modules@.len() == i,
            forall|j: int|
                0 <= j < i ==> #[trigger] made(registry@, nodes@[j]) == Ok::<
                    K::Module,
                    Seq<char>,
                >(modules@[j]) && modules@[j].able(),
        decreases nodes.len() - i,
    {
        let node = &nodes[i];
        match registry.create(node.ty.as_str(), &node.params) {
            Ok(m) => {
                modules.push(m);
            },
            Err(msg) => {
                return Err(EngineError::Build { node: node.id.clone(), msg });
            },
        }
        i = i + 1;
    }
    Ok(modules)
}

/// Prepares every module.
fn prepare_modules<M: Module>(modules: &mut Vec<M>, cfg: &PrepareCfg)
    ensures
        final(modules)@ == Seq::new(
            old(modules)@.len(),
            |i: int| old(modules)@[i].prepared(*cfg),
        ),
        forall|i: int|
            0 <= i < old(modules)@.len() ==> (#[trigger] final(modules)@[i]).able() == old(
                modules,
            )@[i].able() && final(modules)@[i].ins() == old(modules)@[i].ins()
                && final(modules)@[i].outs() == old(modules)@[i].outs(),
{
    let ghost before = modules@;
    let mut i: usize = 0;
    while i < modules.len()
        invariant
            i <= modules@.len() == before.len(),
            forall|j: int|
                0 <= j < i ==> (#[trigger] modules@[j]) == before[j].prepared(*cfg)
                    && modules@[j].able() == before[j].able() && modules@[j].ins()
                    == before[j].ins() && modules@[j].outs() == before[j].outs(),
            forall|j: int| i <= j < before.len() ==> #[trigger] modules@[j] == before[j],
        decreases modules@.len() - i,
    {
        modules[i].prepare(cfg);
        i = i + 1;
    }
    assert(modules@ =~= Seq::new(before.len(), |i: int| before[i].prepared(*cfg)));
}

/// `count` silent buffers.
fn silent_buffers(count: usize, capacity: usize) -> (bufs: Vec<Vec<u32>>)
    ensures
        samples(bufs@) == Seq::new(count as nat, |k: int| silence(capacity as int)),
{
    let mut bufs: Vec<Vec<u32>> = Vec::new();
    let mut k: usize = 0;
    while k < count
        invariant
            k <= count,
            samples(bufs@) =~= Seq::new(k as nat, |k: int| silence(capacity as int)),
        decreases count - k,
    {
        let buf: Vec<u32> = vec![ZERO;capacity];
        assert(buf@ =~= silence(capacity as int));
        let ghost before = samples(bufs@);
        bufs.push(buf);
        assert(samples(bufs@) =~= before.push(silence(capacity as int)));
        k = k + 1;
    }
    bufs
}

impl<K: Factory, F: Fn(FloatOp) -> u64> Engine<K, F> {
    /// Compile a patch into an engine. `capacity` is the maximum block size (frames).
    pub fn build(patch: &Patch, registry: &Registry<K>, capacity: usize, fp: F) -> (res: Result<
        Engine<K, F>,
        EngineError,
    >)
        requires
            is_float_unit(fp),
            factories_ready(registry@),
        ensures
            match res {
                Ok(e) => {
                    &&& graph_fault(registry@, *patch) is None
                    &&& e.wf()
                    &&& graph_of(registry@, *patch, capacity, fp, e@)
                },
                Err(e) => graph_fault(registry@, *patch) == Some(e@),
            },
    {
        let n: usize = patch.nodes.len();
        let ghost nodes = patch.nodes@;
        let ghost net = graph_net(registry@, nodes);
        let mut modules = match create_modules(&patch.nodes, registry) {
            Ok(modules) => modules,
            Err(e) => {
                return Err(e);
            },
        };
        let ghost fresh = modules@;
        let mut in_names: Vec<Vec<String>> = Vec::new();
        let mut out_names: Vec<Vec<String>> = Vec::new();
        let mut i: usize = 0;
        while i < n
            invariant
                i <= n == nodes.len(),
                modules@ == fresh,
                fresh.len() == n,
                in_names@.len() == i,
                out_names@.len() == i,
                forall|j: int| 0 <= j < i ==> spelled((#[trigger] in_names@[j])@) == fresh[j].ins(),
                forall|j: int|
                    0 <= j < i ==> spelled((#[trigger] out_names@[j])@) == fresh[j].outs(),
            decreases n - i,
        {
            in_names.push(modules[i].input_ports());
            out_names.push(modules[i].output_ports());
            i = i + 1;
        }
        proof {
            assert forall|j: int| 0 <= j < n implies #[trigger] net.ins[j] == fresh[j].ins()
                && net.outs[j] == fresh[j].outs() by {
                assert(made(registry@, nodes[j]) == Ok::<K::Module, Seq<char>>(fresh[j]));
            }
            assert(spelled_lists(in_names@) =~= net.ins);
            assert(spelled_lists(out_names@) =~= net.outs);
        }
        let hops = match resolve_wires(&patch.nodes, &in_names, &out_names, &patch.wires) {
            Ok(hops) => hops,
            Err(WireFault::UnknownNode(node)) => {
                return Err(EngineError::UnknownNode(node));
            },
            Err(WireFault::UnknownPort { node, port }) => {
                return Err(EngineError::UnknownPort { node, port });
            },
        };
        let edges = edges_of(&hops);
        proof {
            assert forall|k: int| 0 <= k < edges@.len() implies (#[trigger] edges@[k]).0 < n
                && edges@[k].1 < n by {
                assert(hop_in(net, hops@[k]));
            }
        }
        let order = match topo_sort(n, &edges) {
            Ok(order) => order,
            Err(_) => {
                return Err(EngineError::Cycle);
            },
        };
        // The audio sink and the global sample rate / channel count.
        let sink: usize = match find_sink(&patch.nodes) {
            Some(sink) => sink,
            None => {
                return Err(EngineError::NoAudioOutput);
            },
        };
        let sample_rate: u32 = read_rate(&patch.nodes[sink].params, &fp);
        let channels: usize = in_names[sink].len();
        let mut in_srcs: Vec<Vec<Option<(usize, usize)>>> = Vec::new();
        let mut pool: Vec<Vec<Vec<u32>>> = Vec::new();
        let mut i: usize = 0;
        while i < n
            invariant
                i <= n == nodes.len(),
                nodes == patch.nodes@,
                net.ids.len() == n,
                in_names@.len() == n,
                out_names@.len() == n,
                spelled_lists(in_names@) == net.ins,
                spelled_lists(out_names@) == net.outs,
                forall|k: int| 0 <= k < hops@.len() ==> hop_in(net, #[trigger] hops@[k]),
                in_srcs@.len() == i,
                pool@.len() == i,
                forall|j: int|
                    0 <= j < i ==> (#[trigger] in_srcs@[j])@ == producers(
                        hops@,
                        j,
                        net.ins[j].len() as int,
                        false,
                    ),
                forall|j: int|
                    0 <= j < i ==> samples((#[trigger] pool@[j])@) == Seq::new(
                        net.outs[j].len(),
                        |k: int| silence(capacity as int),
                    ),
            decreases n - i,
        {
            proof {
                assert(net.ins[i as int] == spelled(in_names@[i as int]@));
                assert(net.outs[i as int] == spelled(out_names@[i as int]@));
                assert forall|k: int|
                    0 <= k < hops@.len() && (#[trigger] hops@[k]).to == i implies hops@[k].to_port
                    < in_names@[i as int]@.len() by {
                    assert(hop_in(net, hops@[k]));
                }
            }
            in_srcs.push(collect_producers(&hops, i, in_names[i].len(), false));
            pool.push(silent_buffers(out_names[i].len(), capacity));
            i = i + 1;
        }
        let cfg = PrepareCfg { sample_rate, max_frames: capacity };
        prepare_modules(&mut modules, &cfg);
        let engine = Engine {
            modules,
            order,
            in_srcs,
            pool,
            sink,
            channels,
            sample_rate,
            capacity,
            elapsed_frames: 0,
            fp,
        };
        proof {
            let v = engine@;
            assert(net.ins[sink as int] == spelled(in_names@[sink as int]@));
            assert forall|i: int| 0 <= i < n implies #[trigger] v.running.modules[i] == (made(
                registry@,
                nodes[i],
            )->Ok_0).prepared(cfg) by {
                assert(made(registry@, nodes[i]) == Ok::<K::Module, Seq<char>>(fresh[i]));
            }
            assert forall|i: int| 0 <= i < n implies #[trigger] v.running.pool[i] == Seq::new(
                net.outs[i].len(),
                |k: int| silence(capacity as int),
            ) by {
                assert(samples(engine.pool@[i]@) == v.running.pool[i]);
            }
            assert(v.running.pool =~= Seq::new(
                nodes.len(),
                |i: int| Seq::new(net.outs[i].len(), |k: int| silence(capacity as int)),
            ));
            assert forall|i: int| 0 <= i < n implies #[trigger] v.in_srcs[i] == producers(
                hops@,
                i,
                net.ins[i].len() as int,
                false,
            ) by {
                assert(v.in_srcs[i] == engine.in_srcs@[i]@);
            }
            assert(v.in_srcs =~= Seq::new(
                nodes.len(),
                |i: int| producers(hops@, i, net.ins[i].len() as int, false),
            ));
            assert(v.running.modules =~= Seq::new(
                nodes.len(),
                |i: int| (made(registry@, nodes[i])->Ok_0).prepared(cfg),
            ));
            assert(graph_of(registry@, *patch, capacity, fp, v));
            assert forall|i: int| 0 <= i < n implies fitted(
                #[trigger] v.running.modules[i],
                v.in_srcs[i],
                v.running.pool[i],
            ) by {
                assert(made(registry@, nodes[i]) == Ok::<K::Module, Seq<char>>(fresh[i]));
                assert(net.ins[i] == fresh[i].ins() && net.outs[i] == fresh[i].outs());
            }
            assert forall|i: int, k: int|
                #![trigger v.in_srcs[i][k]]
                0 <= i < n && 0 <= k < v.in_srcs[i].len() implies match v.in_srcs[i][k] {
                Some((node, port)) => node < n && port < v.running.pool[node as int].len(),
                None => true,
            } by {
                if let Some((node, port)) = v.in_srcs[i][k] {
                    let h = lemma_last_producer(hops@, hops@.len() as int, i, k);
                    assert(hop_in(net, hops@[h]));
                }
            }
        }
        Ok(engine)
    }
}

/// Time advances per block: each block starts at the number of frames rendered so far, over the
/// sample rate, and adds its own length to it.
pub proof fn law_time_advances_per_block<M: Module, F: Fn(FloatOp) -> u64>(
    v: GraphView<M, F>,
    first: usize,
    second: usize,
)
    requires
        v.elapsed + first + second <= u64::MAX,
    ensures
        played(v, first).elapsed == v.elapsed + block_frames(first, v.capacity),
        played(played(v, first), second).elapsed == v.elapsed + block_frames(first, v.capacity)
            + block_frames(second, v.capacity),
        played(played(v, first), second).running == ticked(
            played(v, first).running,
            v.in_srcs,
            v.order,
            block_frames(second, v.capacity),
            v.sample_rate,
            start_time(
                v.fp,
                (v.elapsed + block_frames(first, v.capacity)) as u64,
                v.sample_rate,
            ),
            v.order.len() as int,
        ),
{
}

/// An unconnected channel is silent.
pub proof fn law_unconnected_channel_is_silent<M: Module, F: Fn(FloatOp) -> u64>(
    v: GraphView<M, F>,
    device: Seq<u32>,
    frames: usize,
    c: int,
    i: int,
)
    requires
        0 <= c < v.in_srcs[v.sink as int].len(),
        v.in_srcs[v.sink as int][c] is None,
        0 <= i < block_frames(frames, v.capacity),
        block_frames(frames, v.capacity) * v.in_srcs[v.sink as int].len() <= device.len(),
    ensures
        played_into(v, device, frames)[i * v.in_srcs[v.sink as int].len() + c] == ZERO,
{
    let n = block_frames(frames, v.capacity) as int;
    law_frames_are_interleaved(
        device,
        sink_channels(played(v, frames).running.pool, v.in_srcs[v.sink as int], n),
        n,
        c,
        i,
    );
}

/// Every node is evaluated once per block, after the nodes that it reads: when its turn comes,
/// their buffers are what they will be at the end of the block.
pub proof fn law_later_nodes_leave_buffers_alone<M: Module>(
    r: Running<M>,
    in_srcs: Seq<Seq<Option<(usize, usize)>>>,
    order: Seq<usize>,
    frames: usize,
    sample_rate: u32,
    time: u64,
    i: int,
    n: int,
)
    requires
        0 <= i < n <= order.len(),
        nodes_once(order, r.pool.len() as int),
    ensures
        ({
            let then = ticked(r, in_srcs, order, frames, sample_rate, time, i + 1);
            let now = ticked(r, in_srcs, order, frames, sample_rate, time, n);
            &&& now.pool.len() == r.pool.len()
            &&& now.pool[order[i] as int] == then.pool[order[i] as int]
        }),
    decreases n,
{
    lemma_pool_len(r, in_srcs, order, frames, sample_rate, time, n);
    if n > i + 1 {
        law_later_nodes_leave_buffers_alone(
            r,
            in_srcs,
            order,
            frames,
            sample_rate,
            time,
            i,
            n - 1,
        );
        assert(order[i] != order[n - 1]);
    }
}

/// A tick keeps the number of buffers.
proof fn lemma_pool_len<M: Module>(
    r: Running<M>,
    in_srcs: Seq<Seq<Option<(usize, usize)>>>,
    order: Seq<usize>,
    frames: usize,
    sample_rate: u32,
    time: u64,
    n: int,
)
    requires
        0 <= n <= order.len(),
        nodes_once(order, r.pool.len() as int),
    ensures
        ticked(r, in_srcs, order, frames, sample_rate, time, n).pool.len() == r.pool.len(),
    decreases n,
{
    if n > 0 {
        lemma_pool_len(r, in_srcs, order, frames, sample_rate, time, n - 1);
        assert(order[n - 1] < r.pool.len());
    }
}

/// Rendering blocks changes what a tick changes, and the time; blocks within the capacity add up.
pub proof fn lemma_after_blocks<M: Module, F: Fn(FloatOp) -> u64>(
    v: GraphView<M, F>,
    lens: Seq<usize>,
    k: int,
)
    requires
        0 <= k <= lens.len(),
        forall|i: int| 0 <= i < lens.len() ==> #[trigger] lens[i] <= v.capacity,
        v.elapsed + frames_of(lens, k) <= u64::MAX,
    ensures
        ({
            let w = after_blocks(v, lens, k);
            &&& w == (GraphView { running: w.running, elapsed: w.elapsed, ..v })
            &&& w.elapsed == v.elapsed + frames_of(lens, k)
            &&& frames_of(lens, k) >= 0
        }),
    decreases k,
{
    if k > 0 {
        assert(lens[k - 1] <= v.capacity);
        lemma_after_blocks(v, lens, k - 1);
    }
}

/// The stream of an engine has one sample per frame and channel. Frame `i` of block `k` comes
/// behind the frames of all blocks before it, and holds what the sink reads in that block; and a
/// block starts at the time that the blocks before it end. So there is no gap between blocks, and
/// nothing is repeated.
pub proof fn law_stream_has_no_gaps<M: Module, F: Fn(FloatOp) -> u64>(
    v: GraphView<M, F>,
    lens: Seq<usize>,
    m: int,
    k: int,
    i: int,
    c: int,
)
    requires
        0 <= k < m <= lens.len(),
        0 <= i < lens[k],
        0 <= c < v.in_srcs[v.sink as int].len(),
        forall|j: int| 0 <= j < lens.len() ==> #[trigger] lens[j] <= v.capacity,
        v.elapsed + frames_of(lens, m) <= u64::MAX,
    ensures
        ({
            let n = v.in_srcs[v.sink as int].len();
            let at = (frames_of(lens, k) + i) * n + c;
            &&& stream(v, lens, m).len() == frames_of(lens, m) * n
            &&& 0 <= at < stream(v, lens, m).len()
            &&& stream(v, lens, m)[at] == heard(
                after_blocks(v, lens, k + 1).running.pool,
                v.in_srcs[v.sink as int][c],
                lens[k] as int,
            )[i]
            &&& after_blocks(v, lens, k).elapsed == v.elapsed + frames_of(lens, k)
        }),
    decreases m,
{
    let n = v.in_srcs[v.sink as int].len() as int;
    let last = lens[m - 1];
    let before = stream(v, lens, m - 1);
    lemma_stream_len(v, lens, m - 1);
    lemma_stream_len(v, lens, m);
    lemma_after_blocks(v, lens, m - 1);
    let at = (frames_of(lens, k) + i) * n + c;
    if k < m - 1 {
        law_stream_has_no_gaps(v, lens, m - 1, k, i, c);
        assert(frames_of(lens, m) * n == frames_of(lens, m - 1) * n + last * n)
            by (nonlinear_arith)
            requires
                frames_of(lens, m) == frames_of(lens, m - 1) + last,
        ;
        assert(0 <= last * n) by (nonlinear_arith)
            requires
                0 <= last,
                0 <= n,
        ;
    } else {
        let w = after_blocks(v, lens, k);
        let p = i * n + c;
        assert(at == frames_of(lens, k) * n + p) by (nonlinear_arith)
            requires
                at == (frames_of(lens, k) + i) * n + c,
                p == i * n + c,
        ;
        assert(0 <= p < last * n) by (nonlinear_arith)
            requires
                p == i * n + c,
                0 <= i < last,
                0 <= c < n,
        ;
        assert(0 <= frames_of(lens, k) * n) by (nonlinear_arith)
            requires
                0 <= frames_of(lens, k),
                0 <= n,
        ;
        vstd::arithmetic::div_mod::lemma_fundamental_div_mod_converse(p, n, i, c);
        assert(stream(v, lens, m)[at] == fresh(w, last)[p]);
    }
}

/// The stream has one sample per frame and channel.
pub proof fn lemma_stream_len<M: Module, F: Fn(FloatOp) -> u64>(
    v: GraphView<M, F>,
    lens: Seq<usize>,
    m: int,
)
    requires
        0 <= m <= lens.len(),
    ensures
        after_blocks(v, lens, m).in_srcs == v.in_srcs,
        after_blocks(v, lens, m).sink == v.sink,
        frames_of(lens, m) >= 0,
        stream(v, lens, m).len() == frames_of(lens, m) * v.in_srcs[v.sink as int].len(),
    decreases m,
{
    let n = v.in_srcs[v.sink as int].len() as int;
    if m > 0 {
        lemma_stream_len(v, lens, m - 1);
        let last = lens[m - 1];
        assert(frames_of(lens, m) * n == frames_of(lens, m - 1) * n + last * n && 0 <= last * n)
            by (nonlinear_arith)
            requires
                frames_of(lens, m) == frames_of(lens, m - 1) + last,
                0 <= last,
                0 <= n,
        ;
    } else {
        assert(0 * n == 0);
    }
}

/// The blocks of an engine are a first one, and those of the engine behind it.
pub proof fn lemma_first_block<M: Module, F: Fn(FloatOp) -> u64>(
    v: GraphView<M, F>,
    first: usize,
    rest: Seq<usize>,
    k: int,
)
    requires
        0 <= k <= rest.len(),
    ensures
        ({
            let lens = seq![first] + rest;
            &&& after_blocks(v, lens, k + 1) == after_blocks(played(v, first), rest, k)
            &&& stream(v, lens, k + 1) == fresh(v, first) + stream(played(v, first), rest, k)
            &&& frames_of(lens, k + 1) == first + frames_of(rest, k)
        }),
    decreases k,
{
    let lens = seq![first] + rest;
    if k > 0 {
        lemma_first_block(v, first, rest, k - 1);
        assert(lens[k] == rest[k - 1]);
        assert(stream(v, lens, k + 1) =~= fresh(v, first) + stream(played(v, first), rest, k));
    } else {
        reveal_with_fuel(after_blocks, 2);
        reveal_with_fuel(stream, 2);
        reveal_with_fuel(frames_of, 2);
        assert(stream(v, lens, 1) =~= fresh(v, first) + stream(played(v, first), rest, 0));
    }
}

/// Until its turn comes a node stays as it was.
proof fn lemma_before_its_turn<M: Module>(
    r: Running<M>,
    in_srcs: Seq<Seq<Option<(usize, usize)>>>,
    order: Seq<usize>,
    frames: usize,
    sample_rate: u32,
    time: u64,
    i: int,
    n: int,
)
    requires
        0 <= n <= i < order.len(),
        nodes_once(order, r.pool.len() as int),
        r.modules.len() == r.pool.len(),
    ensures
        ({
            let now = ticked(r, in_srcs, order, frames, sample_rate, time, n);
            &&& now.modules.len() == r.modules.len()
            &&& now.pool.len() == r.pool.len()
            &&& now.modules[order[i] as int] == r.modules[order[i] as int]
            &&& now.pool[order[i] as int] == r.pool[order[i] as int]
        }),
    decreases n,
{
    if n > 0 {
        lemma_before_its_turn(r, in_srcs, order, frames, sample_rate, time, i, n - 1);
        assert(order[n - 1] != order[i]);
        assert(order[n - 1] < r.pool.len() && order[i] < r.pool.len());
    }
}

/// After its turn a node's module stays as it is.
proof fn lemma_after_its_turn<M: Module>(
    r: Running<M>,
    in_srcs: Seq<Seq<Option<(usize, usize)>>>,
    order: Seq<usize>,
    frames: usize,
    sample_rate: u32,
    time: u64,
    i: int,
    n: int,
)
    requires
        0 <= i < n <= order.len(),
        nodes_once(order, r.pool.len() as int),
        r.modules.len() == r.pool.len(),
    ensures
        ({
            let then = ticked(r, in_srcs, order, frames, sample_rate, time, i + 1);
            let now = ticked(r, in_srcs, order, frames, sample_rate, time, n);
            &&& now.modules.len() == r.modules.len()
            &&& now.modules[order[i] as int] == then.modules[order[i] as int]
        }),
    decreases n,
{
    lemma_before_its_turn(r, in_srcs, order, frames, sample_rate, time, i, i);
    if n > i + 1 {
        lemma_after_its_turn(r, in_srcs, order, frames, sample_rate, time, i, n - 1);
        assert(order[n - 1] != order[i]);
        assert(order[n - 1] < r.pool.len());
    }
}

/// Every node that input `src` of the node at place `i` of the order may read has had its turn.
pub open spec fn comes_before(order: Seq<usize>, src: Option<(usize, usize)>, i: int) -> bool {
    match src {
        Some((node, _)) => exists|j: int| 0 <= j < i && #[trigger] order[j] == node,
        None => true,
    }
}

/// A block runs every module once, on what its producers put out in the same block: in the end the
/// module has moved on by that one step, and the first frames of its buffers are what it put out.
pub proof fn law_nodes_run_their_modules<M: Module>(
    r: Running<M>,
    in_srcs: Seq<Seq<Option<(usize, usize)>>>,
    order: Seq<usize>,
    frames: usize,
    sample_rate: u32,
    time: u64,
    i: int,
    port: int,
)
    requires
        0 <= i < order.len(),
        nodes_once(order, r.pool.len() as int),
        r.modules.len() == r.pool.len(),
        forall|k: int|
            0 <= k < in_srcs[order[i] as int].len() ==> comes_before(
                order,
                #[trigger] in_srcs[order[i] as int][k],
                i,
            ),
        0 <= port < r.pool[order[i] as int].len(),
    ensures
        ({
            let node = order[i] as int;
            let srcs = in_srcs[node];
            let end = ticked(r, in_srcs, order, frames, sample_rate, time, order.len() as int);
            let step = r.modules[node].step(
                CtxView {
                    frames,
                    sample_rate,
                    time,
                    inputs: Seq::new(
                        srcs.len(),
                        |k: int|
                            match srcs[k] {
                                Some((from, out)) => end.pool[from as int][out as int].take(
                                    frames as int,
                                ),
                                None => silence(frames as int),
                            },
                    ),
                    outputs: Seq::new(
                        r.pool[node].len(),
                        |k: int| r.pool[node][k].take(frames as int),
                    ),
                },
            );
            &&& end.modules[node] == step.module
            &&& step.outputs[port].len() == frames ==> end.pool[node][port].take(frames as int)
                == step.outputs[port]
        }),
{
    let n = order.len() as int;
    let node = order[i] as int;
    let srcs = in_srcs[node];
    let now = ticked(r, in_srcs, order, frames, sample_rate, time, i);
    let then = ticked(r, in_srcs, order, frames, sample_rate, time, i + 1);
    let end = ticked(r, in_srcs, order, frames, sample_rate, time, n);
    lemma_before_its_turn(r, in_srcs, order, frames, sample_rate, time, i, i);
    lemma_after_its_turn(r, in_srcs, order, frames, sample_rate, time, i, n);
    law_later_nodes_leave_buffers_alone(r, in_srcs, order, frames, sample_rate, time, i, n);
    let inputs = Seq::new(
        srcs.len(),
        |k: int|
            match srcs[k] {
                Some((from, out)) => end.pool[from as int][out as int].take(frames as int),
                None => silence(frames as int),
            },
    );
    let ctx = node_ctx(now, srcs, node, frames, sample_rate, time);
    assert forall|k: int| 0 <= k < srcs.len() implies ctx.inputs[k] == inputs[k] by {
        assert(comes_before(order, srcs[k], i));
        if let Some((from, out)) = srcs[k] {
            let j = choose|j: int| 0 <= j < i && #[trigger] order[j] == from;
            law_later_nodes_leave_buffers_alone(r, in_srcs, order, frames, sample_rate, time, j, i);
            law_later_nodes_leave_buffers_alone(r, in_srcs, order, frames, sample_rate, time, j, n);
        }
    }
    assert(ctx.inputs =~= inputs);
    let step = now.modules[node].step(ctx);
    assert(node < r.pool.len());
    assert(then.modules[node] == step.module);
    let rest = r.pool[node][port].skip(frames as int);
    assert(then.pool[node][port] == step.outputs[port] + rest);
    if step.outputs[port].len() == frames {
        assert((step.outputs[port] + rest).take(frames as int) =~= step.outputs[port]);
    }
}

/// A channel of the device carries what the node that feeds it put out in the block.
pub proof fn law_channel_carries_its_output<M: Module, F: Fn(FloatOp) -> u64>(
    v: GraphView<M, F>,
    device: Seq<u32>,
    frames: usize,
    c: int,
    i: int,
)
    requires
        0 <= c < v.in_srcs[v.sink as int].len(),
        v.in_srcs[v.sink as int][c] is Some,
        0 <= i < block_frames(frames, v.capacity),
        block_frames(frames, v.capacity) * v.in_srcs[v.sink as int].len() <= device.len(),
        ({
            let (node, port) = v.in_srcs[v.sink as int][c]->0;
            played(v, frames).running.pool[node as int][port as int].len() >= block_frames(
                frames,
                v.capacity,
            )
        }),
    ensures
        ({
            let (node, port) = v.in_srcs[v.sink as int][c]->0;
            played_into(v, device, frames)[i * v.in_srcs[v.sink as int].len() + c] == played(
                v,
                frames,
            ).running.pool[node as int][port as int][i]
        }),
{
    let n = block_frames(frames, v.capacity) as int;
    law_frames_are_interleaved(
        device,
        sink_channels(played(v, frames).running.pool, v.in_srcs[v.sink as int], n),
        n,
        c,
        i,
    );
}

} // verus!
