//! Which nodes a voice source reaches.

use vstd::prelude::*;

verus! {

/// Per node, per input: the (producer node, producer output port), or `None`.
pub open spec fn src_views(in_srcs: Seq<Vec<Option<(usize, usize)>>>) -> Seq<
    Seq<Option<(usize, usize)>>,
> {
    Seq::new(in_srcs.len(), |i: int| in_srcs[i]@)
}

/// Input `k` of node `v` reads an output of node `u`.
pub open spec fn reads_node(
    srcs: Seq<Seq<Option<(usize, usize)>>>,
    u: usize,
    v: usize,
    k: int,
) -> bool {
    0 <= k < srcs[v as int].len() && match srcs[v as int][k] {
        Some((node, _)) => node == u,
        None => false,
    }
}

/// Some input of node `v` reads an output of node `u`.
pub open spec fn feeds_node(srcs: Seq<Seq<Option<(usize, usize)>>>, u: usize, v: usize) -> bool {
    exists|k: int| reads_node(srcs, u, v, k)
}

/// Node `v` reads node `u`, and is neither the sink nor the source.
pub open spec fn step(
    srcs: Seq<Seq<Option<(usize, usize)>>>,
    source: usize,
    sink: usize,
    u: usize,
    v: usize,
) -> bool {
    v < srcs.len() && v != sink && v != source && feeds_node(srcs, u, v)
}

/// A walk from the source along the wires, past the sink.
pub open spec fn voice_walk(
    srcs: Seq<Seq<Option<(usize, usize)>>>,
    source: usize,
    sink: usize,
    walk: Seq<usize>,
) -> bool {
    &&& walk.len() >= 2
    &&& walk[0] == source
    &&& forall|i: int| 0 <= i < walk.len() - 1 ==> #[trigger] walk_step(srcs, source, sink, walk, i)
}

/// The `i`-th step of a walk.
pub open spec fn walk_step(
    srcs: Seq<Seq<Option<(usize, usize)>>>,
    source: usize,
    sink: usize,
    walk: Seq<usize>,
    i: int,
) -> bool {
    step(srcs, source, sink, walk[i], walk[i + 1])
}

/// The source reaches node `v`.
pub open spec fn downstream(
    srcs: Seq<Seq<Option<(usize, usize)>>>,
    source: usize,
    sink: usize,
    v: usize,
) -> bool {
    exists|walk: Seq<usize>| #[trigger]
        voice_walk(srcs, source, sink, walk) && walk[walk.len() - 1] == v
}

/// What a reached node, or the source, feeds is reached.
pub proof fn lemma_downstream_step(
    srcs: Seq<Seq<Option<(usize, usize)>>>,
    source: usize,
    sink: usize,
    u: usize,
    v: usize,
)
    requires
        u == source || downstream(srcs, source, sink, u),
        step(srcs, source, sink, u, v),
    ensures
        downstream(srcs, source, sink, v),
{
    let prev = if u == source {
        seq![source]
    } else {
        choose|walk: Seq<usize>| #[trigger]
            voice_walk(srcs, source, sink, walk) && walk[walk.len() - 1] == u
    };
    let walk = prev.push(v);
    assert forall|i: int| 0 <= i < walk.len() - 1 implies #[trigger] walk_step(
        srcs,
        source,
        sink,
        walk,
        i,
    ) by {
        if i < prev.len() - 1 {
            assert(walk_step(srcs, source, sink, prev, i));
        }
    }
    assert(voice_walk(srcs, source, sink, walk));
}

/// A reached node is a node, and neither the sink nor the source.
pub proof fn lemma_downstream_node(
    srcs: Seq<Seq<Option<(usize, usize)>>>,
    source: usize,
    sink: usize,
    v: usize,
)
    requires
        downstream(srcs, source, sink, v),
    ensures
        v < srcs.len(),
        v != sink,
        v != source,
{
    let walk = choose|walk: Seq<usize>| #[trigger]
        voice_walk(srcs, source, sink, walk) && walk[walk.len() - 1] == v;
    assert(walk_step(srcs, source, sink, walk, walk.len() - 2));
}

/// Number of unmarked nodes among the first `n`.
spec fn unmarked(marks: Seq<bool>, n: int) -> int
    decreases n,
{
    if n <= 0 {
        0
    } else {
        unmarked(marks, n - 1) + if marks[n - 1] {
            0int
        } else {
            1
        }
    }
}

proof fn lemma_unmarked(marks: Seq<bool>, n: int)
    ensures
        0 <= unmarked(marks, n),
    decreases n,
{
    if n > 0 {
        lemma_unmarked(marks, n - 1);
    }
}

proof fn lemma_mark(marks: Seq<bool>, v: int, n: int)
    requires
        0 <= v < marks.len(),
        !marks[v],
        0 <= n <= marks.len(),
    ensures
        unmarked(marks.update(v, true), n) == unmarked(marks, n) - if v < n {
            1int
        } else {
            0
        },
    decreases n,
{
    if n > 0 {
        lemma_mark(marks, v, n - 1);
    }
}

/// Whether some input of `v` reads an output of `u`.
fn feeds(srcs: &Vec<Option<(usize, usize)>>, u: usize, Ghost(all): Ghost<
    Seq<Seq<Option<(usize, usize)>>>,
>, Ghost(v): Ghost<usize>) -> (r: bool)
    requires
        all[v as int] == srcs@,
    ensures
        r == feeds_node(all, u, v),
{
    let mut k: usize = 0;
    while k < srcs.len()
        invariant
            k <= srcs.len(),
            all[v as int] == srcs@,
            forall|i: int| 0 <= i < k ==> !reads_node(all, u, v, i),
        decreases srcs.len() - k,
    {
        match srcs[k] {
            Some((node, _)) => {
                if node == u {
                    assert(reads_node(all, u, v, k as int));
                    return true;
                }
            },
            None => {},
        }
        k = k + 1;
    }
    false
}

/// What has been visited so far: marks and stack agree, and everything that a node off the stack
/// feeds is marked.
spec fn visited(
    srcs: Seq<Seq<Option<(usize, usize)>>>,
    source: usize,
    sink: usize,
    marks: Seq<bool>,
    stack: Seq<usize>,
    node: Option<usize>,
    upto: int,
) -> bool {
    &&& marks.len() == srcs.len()
    &&& forall|v: usize|
        v < srcs.len() && #[trigger] marks[v as int] ==> downstream(srcs, source, sink, v)
    &&& forall|i: int|
        0 <= i < stack.len() ==> #[trigger] stack[i] < srcs.len() && (stack[i] == source
            || marks[stack[i] as int])
    &&& forall|u: usize, v: usize| #[trigger]
        step(srcs, source, sink, u, v) && u < srcs.len() && (u == source || marks[u as int])
            && !stack.contains(u) && (node == Some(u) ==> v < upto) ==> marks[v as int]
}

/// When nothing is left on the stack, exactly the reached nodes are marked.
proof fn lemma_all_visited(
    srcs: Seq<Seq<Option<(usize, usize)>>>,
    source: usize,
    sink: usize,
    marks: Seq<bool>,
    walk: Seq<usize>,
    i: int,
)
    requires
        source < srcs.len(),
        visited(srcs, source, sink, marks, Seq::empty(), None, 0),
        voice_walk(srcs, source, sink, walk),
        1 <= i < walk.len(),
    ensures
        walk[i] < srcs.len(),
        marks[walk[i] as int],
    decreases i,
{
    if i > 1 {
        lemma_all_visited(srcs, source, sink, marks, walk, i - 1);
    }
    assert(walk_step(srcs, source, sink, walk, i - 1));
    assert(step(srcs, source, sink, walk[i - 1], walk[i]));
}

/// Marks what `node` feeds, and puts it on the stack.
fn visit(
    in_srcs: &Vec<Vec<Option<(usize, usize)>>>,
    source: usize,
    sink: usize,
    node: usize,
    marks: &mut Vec<bool>,
    stack: &mut Vec<usize>,
)
    requires
        source < in_srcs.len(),
        node < in_srcs.len(),
        node == source || old(marks)@[node as int],
        visited(src_views(in_srcs@), source, sink, old(marks)@, old(stack)@, Some(node), 0),
    ensures
        visited(src_views(in_srcs@), source, sink, final(marks)@, final(stack)@, None, 0),
        2 * unmarked(final(marks)@, final(marks)@.len() as int) + final(stack)@.len() <= 2
            * unmarked(old(marks)@, old(marks)@.len() as int) + old(stack)@.len(),
{
    let ghost srcs = src_views(in_srcs@);
    let n: usize = in_srcs.len();
    let ghost total = 2 * unmarked(marks@, marks@.len() as int) + stack@.len();
    let mut next: usize = 0;
    while next < n
        invariant
            next <= n,
            n == in_srcs.len(),
            srcs == src_views(in_srcs@),
            source < n,
            node < n,
            node == source || marks@[node as int],
            visited(srcs, source, sink, marks@, stack@, Some(node), next as int),
            2 * unmarked(marks@, marks@.len() as int) + stack@.len() <= total,
        decreases n - next,
    {
        let ghost marks0 = marks@;
        let ghost stack0 = stack@;
        assert(srcs[next as int] == in_srcs@[next as int]@);
        if feeds(&in_srcs[next], node, Ghost(srcs), Ghost(next)) && next != sink && next != source
            && !marks[next] {
            proof {
                assert(step(srcs, source, sink, node, next));
                lemma_downstream_step(srcs, source, sink, node, next);
                lemma_mark(marks0, next as int, marks0.len() as int);
            }
            marks.set(next, true);
            stack.push(next);
            proof {
                assert(marks@ =~= marks0.update(next as int, true));
                assert(stack@[stack0.len() as int] == next);
                assert forall|u: usize, v: usize| #[trigger]
                    step(srcs, source, sink, u, v) && u < srcs.len() && (u == source
                        || marks@[u as int]) && !stack@.contains(u) && (Some(node) == Some(u) ==> v
                        < next + 1) implies marks@[v as int] by {
                    if u == next {
                        assert(stack@.contains(u));
                    } else {
                        if stack0.contains(u) {
                            let i = choose|i: int| 0 <= i < stack0.len() && stack0[i] == u;
                            assert(stack@[i] == u);
                        }
                        if v != next {
                            assert(marks0[v as int]);
                        }
                    }
                }
            }
        } else {
            proof {
                assert forall|u: usize, v: usize| #[trigger]
                    step(srcs, source, sink, u, v) && u < srcs.len() && (u == source
                        || marks@[u as int]) && !stack@.contains(u) && (Some(node) == Some(u) ==> v
                        < next + 1) implies marks@[v as int] by {}
            }
        }
        next = next + 1;
    }
    proof {
        assert forall|u: usize, v: usize| #[trigger]
            step(srcs, source, sink, u, v) && u < srcs.len() && (u == source || marks@[u as int])
                && !stack@.contains(u) && (None::<usize> == Some(u) ==> v
                < 0) implies marks@[v as int] by {}
    }
}

/// Nodes downstream of the source (forward reachability).
pub fn voice_nodes(in_srcs: &Vec<Vec<Option<(usize, usize)>>>, source: usize, sink: usize) -> (marks:
    Vec<bool>)
    requires
        source < in_srcs.len(),
    ensures
        marks@.len() == in_srcs@.len(),
        forall|v: usize|
            v < in_srcs@.len() ==> #[trigger] marks@[v as int] == downstream(
                src_views(in_srcs@),
                source,
                sink,
                v,
            ),
{
    let ghost srcs = src_views(in_srcs@);
    let n: usize = in_srcs.len();
    let mut marks: Vec<bool> = vec![false;n];
    let mut stack: Vec<usize> = vec![source];
    proof {
        assert(stack@[0] == source);
    }
    while stack.len() > 0
        invariant
            n == in_srcs.len(),
            srcs == src_views(in_srcs@),
            source < n,
            visited(srcs, source, sink, marks@, stack@, None, 0),
        decreases 2 * unmarked(marks@, marks@.len() as int) + stack@.len(),
    {
        let ghost before = stack@;
        proof {
            lemma_unmarked(marks@, marks@.len() as int);
        }
        let last = stack.pop();
        let node: usize = match last {
            Some(node) => node,
            None => 0,
        };
        proof {
            assert(before[before.len() - 1] == node);
            assert forall|i: int| 0 <= i < stack@.len() implies #[trigger] stack@[i] < srcs.len() && (
            stack@[i] == source || marks@[stack@[i] as int]) by {
                assert(before[i] == stack@[i]);
            }
            assert forall|u: usize, v: usize| #[trigger]
                step(srcs, source, sink, u, v) && u < srcs.len() && (u == source
                    || marks@[u as int]) && !stack@.contains(u) && (Some(node) == Some(u) ==> v
                    < 0) implies marks@[v as int] by {
                if before.contains(u) {
                    let i = choose|i: int| 0 <= i < before.len() && before[i] == u;
                    if i < stack@.len() {
                        assert(stack@[i] == u);
                    }
                }
            }
        }
        visit(in_srcs, source, sink, node, &mut marks, &mut stack);
        proof {
            lemma_unmarked(marks@, marks@.len() as int);
        }
    }
    proof {
        assert(stack@ =~= Seq::empty());
        assert forall|v: usize| v < n implies #[trigger] marks@[v as int] == downstream(
            srcs,
            source,
            sink,
            v,
        ) by {
            if downstream(srcs, source, sink, v) {
                let walk = choose|walk: Seq<usize>| #[trigger]
                    voice_walk(srcs, source, sink, walk) && walk[walk.len() - 1] == v;
                lemma_all_visited(srcs, source, sink, marks@, walk, walk.len() - 1);
            }
        }
    }
    marks
}

} // verus!
