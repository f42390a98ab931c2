//! Which plan inputs reach which outputs along the connections of a builder,
//! and why the dependencies of a built plan are exactly those.

use vstd::prelude::*;

use crate::deps::{after_node, dependencies_after, lemma_dependencies_len, output_reach};
use crate::error::Error;
use crate::plan::{
    build_error, built_plan, lemma_resolve_all_ok, lemma_resolve_nodes_ok, lemma_slot_start_monotone,
    names_node, output_start, plan_layout_matches, reads, resolve_all, resolve_nodes, resolve_spec,
    slot_start, tables_fit, BuilderView, NodeId, PlanView, Source,
};

verus! {

/// Plan input `x` reaches output `o` of node `k` (by insertion index) through
/// at most `fuel` further nodes: some input `i` of node `k` on which output
/// `o` depends (`tables[k][o][i]`) is connected to plan input `x`, or to an
/// output of a node that `x` reaches in turn.
pub open spec fn reaches_within(
    b: BuilderView,
    tables: Seq<Seq<Seq<bool>>>,
    x: usize,
    k: int,
    o: int,
    fuel: nat,
) -> bool
    decreases fuel,
{
    exists|i: int|
        #![trigger b.sources[k][i]]
        0 <= i < b.sources[k].len() && tables[k][o][i] && match b.sources[k][i] {
            Source::Input(y) => y == x,
            Source::Node(id, o2) => fuel > 0 && reaches_within(
                b,
                tables,
                x,
                id.index_of() as int,
                o2 as int,
                (fuel - 1) as nat,
            ),
        }
}

/// Plan input `x` reaches output `o` of node `k` through some chain of
/// connections, whatever the insertion order of the nodes along it.
pub open spec fn reaches(b: BuilderView, tables: Seq<Seq<Seq<bool>>>, x: usize, k: int, o: int) -> bool {
    exists|fuel: nat| #[trigger] reaches_within(b, tables, x, k, o, fuel)
}

/// Plan input `x` reaches `source`: `source` is that plan input, or a node
/// output that `x` reaches.
pub open spec fn source_reaches(
    b: BuilderView,
    tables: Seq<Seq<Seq<bool>>>,
    x: usize,
    source: Source,
) -> bool {
    match source {
        Source::Input(y) => y == x,
        Source::Node(id, o) => reaches(b, tables, x, id.index_of() as int, o as int),
    }
}

/// A built plan laid out from a builder whose nodes resolve to `resolved`.
spec fn laid_out(
    b: BuilderView,
    tables: Seq<Seq<Seq<bool>>>,
    plan: PlanView,
    resolved: Seq<Seq<usize>>,
) -> bool {
    &&& b.sources.len() == b.shapes.len()
    &&& tables_fit(b, tables)
    &&& resolve_nodes(b, b.shapes.len() as int) == Ok::<Seq<Seq<usize>>, Error>(resolved)
    &&& plan_layout_matches(b, resolved, plan)
    &&& plan.inputs == b.inputs
    &&& plan.slots == slot_start(b.inputs, b.shapes, b.shapes.len() as int)
}

/// After running the first `p` nodes, each plan input depends on itself and
/// each output of those nodes on the plan inputs that reach it.
spec fn settled(
    b: BuilderView,
    tables: Seq<Seq<Seq<bool>>>,
    plan: PlanView,
    p: int,
    state: Seq<Set<usize>>,
) -> bool {
    &&& state.len() == plan.slots
    &&& forall|s: int, x: usize|
        0 <= s < b.inputs ==> (#[trigger] state[s].contains(x) <==> x == s)
    &&& forall|q: int, o: int, x: usize|
        0 <= q < p && 0 <= o < b.shapes[plan.nodes[q].index as int].outputs ==> (state[output_start(
            b.inputs,
            b.shapes,
            plan.nodes[q].index as int,
        ) + o].contains(x) <==> #[trigger] reaches(b, tables, x, plan.nodes[q].index as int, o))
}

proof fn lemma_node_slots(b: BuilderView, k: int)
    requires
        0 <= k < b.shapes.len(),
    ensures
        b.inputs <= slot_start(b.inputs, b.shapes, k) <= output_start(b.inputs, b.shapes, k),
        output_start(b.inputs, b.shapes, k) + b.shapes[k].outputs == slot_start(
            b.inputs,
            b.shapes,
            k + 1,
        ),
        slot_start(b.inputs, b.shapes, k + 1) <= slot_start(
            b.inputs,
            b.shapes,
            b.shapes.len() as int,
        ),
{
    lemma_slot_start_monotone(b.inputs, b.shapes, 0, k);
    lemma_slot_start_monotone(b.inputs, b.shapes, k + 1, b.shapes.len() as int);
}

/// Every node stands at some position of the plan, and each position holds
/// a distinct node.
proof fn lemma_positions(
    b: BuilderView,
    tables: Seq<Seq<Seq<bool>>>,
    plan: PlanView,
    resolved: Seq<Seq<usize>>,
)
    requires
        laid_out(b, tables, plan, resolved),
    ensures
        plan.nodes.len() == b.shapes.len(),
        forall|p: int| 0 <= p < plan.nodes.len() ==> #[trigger] plan.nodes[p].index < b.shapes.len(),
        forall|p: int, q: int|
            0 <= p < plan.nodes.len() && 0 <= q < plan.nodes.len() && p != q
                ==> #[trigger] plan.nodes[p].index != #[trigger] plan.nodes[q].index,
{
    let ord = Seq::new(plan.nodes.len(), |q: int| plan.nodes[q].index);
    assert forall|p: int| 0 <= p < plan.nodes.len() implies #[trigger] plan.nodes[p].index
        < b.shapes.len() by {
        assert(ord[p] == plan.nodes[p].index);
    }
    assert forall|p: int, q: int|
        0 <= p < plan.nodes.len() && 0 <= q < plan.nodes.len() && p != q implies #[trigger] plan.nodes[p].index
        != #[trigger] plan.nodes[q].index by {
        assert(ord[p] == plan.nodes[p].index && ord[q] == plan.nodes[q].index);
    }
}

/// The position at which node `k` runs.
proof fn lemma_position(
    b: BuilderView,
    tables: Seq<Seq<Seq<bool>>>,
    plan: PlanView,
    resolved: Seq<Seq<usize>>,
    k: int,
) -> (p: int)
    requires
        laid_out(b, tables, plan, resolved),
        0 <= k < b.shapes.len(),
    ensures
        0 <= p < plan.nodes.len(),
        plan.nodes[p].index == k,
{
    let ord = Seq::new(plan.nodes.len(), |q: int| plan.nodes[q].index);
    assert(ord.contains(k as usize));
    let p = choose|p: int| 0 <= p < ord.len() && ord[p] == k as usize;
    assert(plan.nodes[p].index == k);
    p
}

/// A node reads a plan input or an output of a node run before it; either
/// way, its value there is settled.
proof fn lemma_source_settled(
    b: BuilderView,
    tables: Seq<Seq<Seq<bool>>>,
    plan: PlanView,
    resolved: Seq<Seq<usize>>,
    p: int,
    i: int,
    x: usize,
)
    requires
        laid_out(b, tables, plan, resolved),
        0 <= p < plan.nodes.len(),
        settled(b, tables, plan, p, dependencies_after(b.inputs, plan.slots, plan.nodes, tables, p)),
        0 <= i < b.sources[plan.nodes[p].index as int].len(),
    ensures
        resolve_spec(b, b.sources[plan.nodes[p].index as int][i]) == Ok::<usize, Error>(
            resolved[plan.nodes[p].index as int][i],
        ),
        dependencies_after(b.inputs, plan.slots, plan.nodes, tables, p)[resolved[plan.nodes[p].index as int][i] as int].contains(
            x,
        ) <==> source_reaches(b, tables, x, b.sources[plan.nodes[p].index as int][i]),
{
    let n = b.shapes.len() as int;
    let prev = dependencies_after(b.inputs, plan.slots, plan.nodes, tables, p);
    let ord = Seq::new(plan.nodes.len(), |q: int| plan.nodes[q].index);
    lemma_positions(b, tables, plan, resolved);
    let k = plan.nodes[p].index as int;
    assert(0 <= k < n);
    lemma_resolve_nodes_ok(b, n);
    let srcs = b.sources[k];
    assert(resolve_all(b, srcs) == Ok::<Seq<usize>, Error>(resolved[k]));
    lemma_resolve_all_ok(b, srcs);
    let src = srcs[i];
    assert(resolve_spec(b, src) == Ok::<usize, Error>(resolved[k][i]));
    match src {
        Source::Input(y) => {
            assert(resolved[k][i] == y && y < b.inputs);
        },
        Source::Node(id, o2) => {
            let u = id.index_of() as int;
            assert(0 <= u < n && o2 < b.shapes[u].outputs);
            lemma_node_slots(b, u);
            assert(resolved[k][i] == output_start(b.inputs, b.shapes, u) + o2);
            assert(names_node(b.sources[k][i], u));
            assert(reads(b, u, k));
            let q = lemma_position(b, tables, plan, resolved, u);
            assert(ord[q] == u && ord[p] == k);
            assert(reads(b, ord[q] as int, ord[p] as int));
            assert(q < p);
            assert(reaches(b, tables, x, plan.nodes[q].index as int, o2 as int) <==> prev[output_start(
                b.inputs,
                b.shapes,
                plan.nodes[q].index as int,
            ) + o2].contains(x));
        },
    }
}

/// Running the node at position `p` gives its output `o` exactly the plan
/// inputs that reach it.
proof fn lemma_output_step(
    b: BuilderView,
    tables: Seq<Seq<Seq<bool>>>,
    plan: PlanView,
    resolved: Seq<Seq<usize>>,
    p: int,
    o: int,
    x: usize,
)
    requires
        laid_out(b, tables, plan, resolved),
        0 <= p < plan.nodes.len(),
        settled(b, tables, plan, p, dependencies_after(b.inputs, plan.slots, plan.nodes, tables, p)),
        0 <= o < b.shapes[plan.nodes[p].index as int].outputs,
    ensures
        dependencies_after(b.inputs, plan.slots, plan.nodes, tables, p + 1)[output_start(
            b.inputs,
            b.shapes,
            plan.nodes[p].index as int,
        ) + o].contains(x) <==> reaches(b, tables, x, plan.nodes[p].index as int, o),
{
    let n = b.shapes.len() as int;
    let prev = dependencies_after(b.inputs, plan.slots, plan.nodes, tables, p);
    let next = dependencies_after(b.inputs, plan.slots, plan.nodes, tables, p + 1);
    lemma_positions(b, tables, plan, resolved);
    let node = plan.nodes[p];
    let k = node.index as int;
    assert(0 <= k < n);
    lemma_node_slots(b, k);
    lemma_resolve_nodes_ok(b, n);
    let srcs = b.sources[k];
    assert(resolve_all(b, srcs) == Ok::<Seq<usize>, Error>(resolved[k]));
    lemma_resolve_all_ok(b, srcs);
    assert(node.sources@ == resolved[k]);
    assert(tables[k].len() == b.shapes[k].outputs);
    assert(tables[k][o].len() == b.shapes[k].inputs);
    let s = output_start(b.inputs, b.shapes, k) + o;
    assert(next == after_node(prev, node, tables[k]));
    assert(next[s] == output_reach(prev, node.sources@, tables[k][o]));
    if next[s].contains(x) {
        let i = choose|i: int|
            0 <= i < resolved[k].len() && tables[k][o][i] && #[trigger] prev[resolved[k][i] as int].contains(
                x,
            );
        lemma_source_settled(b, tables, plan, resolved, p, i, x);
        match srcs[i] {
            Source::Input(y) => {
                assert(reaches_within(b, tables, x, k, o, 0));
            },
            Source::Node(id, o2) => {
                let f = choose|f: nat|
                    #[trigger] reaches_within(b, tables, x, id.index_of() as int, o2 as int, f);
                assert(reaches_within(b, tables, x, k, o, f + 1));
            },
        }
    }
    if reaches(b, tables, x, k, o) {
        let f = choose|f: nat| #[trigger] reaches_within(b, tables, x, k, o, f);
        let i = choose|i: int|
            #![trigger b.sources[k][i]]
            0 <= i < b.sources[k].len() && tables[k][o][i] && match b.sources[k][i] {
                Source::Input(y) => y == x,
                Source::Node(id, o2) => f > 0 && reaches_within(
                    b,
                    tables,
                    x,
                    id.index_of() as int,
                    o2 as int,
                    (f - 1) as nat,
                ),
            };
        lemma_source_settled(b, tables, plan, resolved, p, i, x);
        match srcs[i] {
            Source::Input(y) => {},
            Source::Node(id, o2) => {
                assert(reaches(b, tables, x, id.index_of() as int, o2 as int));
            },
        }
        assert(prev[resolved[k][i] as int].contains(x));
        assert(next[s].contains(x));
    }
}

/// Dependencies of every slot after running the first `p` nodes of a built
/// plan.
proof fn lemma_settled(
    b: BuilderView,
    tables: Seq<Seq<Seq<bool>>>,
    plan: PlanView,
    resolved: Seq<Seq<usize>>,
    p: int,
)
    requires
        laid_out(b, tables, plan, resolved),
        0 <= p <= plan.nodes.len(),
    ensures
        settled(b, tables, plan, p, dependencies_after(b.inputs, plan.slots, plan.nodes, tables, p)),
    decreases p,
{
    lemma_dependencies_len(b.inputs, plan.slots, plan.nodes, tables, p);
    lemma_positions(b, tables, plan, resolved);
    lemma_slot_start_monotone(b.inputs, b.shapes, 0, b.shapes.len() as int);
    let next = dependencies_after(b.inputs, plan.slots, plan.nodes, tables, p);
    if p > 0 {
        lemma_settled(b, tables, plan, resolved, p - 1);
        let prev = dependencies_after(b.inputs, plan.slots, plan.nodes, tables, p - 1);
        let node = plan.nodes[p - 1];
        let k = node.index as int;
        lemma_node_slots(b, k);
        assert(next == after_node(prev, node, tables[k]));
        assert forall|s: int, x: usize| 0 <= s < b.inputs implies (#[trigger] next[s].contains(x)
            <==> x == s) by {
            assert(next[s] == prev[s]);
        }
        assert forall|q: int, o: int, x: usize|
            0 <= q < p && 0 <= o < b.shapes[plan.nodes[q].index as int].outputs implies (next[output_start(
            b.inputs,
            b.shapes,
            plan.nodes[q].index as int,
        ) + o].contains(x) <==> #[trigger] reaches(b, tables, x, plan.nodes[q].index as int, o)) by {
            let kq = plan.nodes[q].index as int;
            lemma_node_slots(b, kq);
            let s = output_start(b.inputs, b.shapes, kq) + o;
            if q < p - 1 {
                assert(kq != k);
                if kq < k {
                    lemma_slot_start_monotone(b.inputs, b.shapes, kq + 1, k);
                } else {
                    lemma_slot_start_monotone(b.inputs, b.shapes, k + 1, kq);
                }
                assert(next[s] == prev[s]);
            } else {
                lemma_output_step(b, tables, plan, resolved, p - 1, o, x);
            }
        }
    }
}

/// The dependencies of a published output are exactly the plan inputs that
/// reach it through a chain of connections, each hop passing an operator
/// input on which the output it feeds depends, whatever the insertion order
/// or slot position of the nodes along the chain.
pub proof fn lemma_dependencies_follow_chains(
    b: BuilderView,
    outputs: Seq<Source>,
    tables: Seq<Seq<Seq<bool>>>,
    plan: PlanView,
    j: int,
    x: usize,
)
    requires
        b.sources.len() == b.shapes.len(),
        tables_fit(b, tables),
        build_error(b, outputs) is None,
        built_plan(b, outputs, tables, plan),
        0 <= j < outputs.len(),
    ensures
        plan.dependencies[j].contains(x) <==> source_reaches(b, tables, x, outputs[j]),
{
    let n = b.shapes.len() as int;
    let outs = resolve_all(b, outputs)->Ok_0;
    let resolved = resolve_nodes(b, n)->Ok_0;
    assert(laid_out(b, tables, plan, resolved));
    lemma_positions(b, tables, plan, resolved);
    lemma_settled(b, tables, plan, resolved, plan.nodes.len() as int);
    lemma_resolve_all_ok(b, outputs);
    let last = dependencies_after(b.inputs, plan.slots, plan.nodes, tables, plan.nodes.len() as int);
    assert(plan.dependencies[j].contains(x) <==> last[outs[j] as int].contains(x));
    assert(resolve_spec(b, outputs[j]) == Ok::<usize, Error>(outs[j]));
    match outputs[j] {
        Source::Input(y) => {
            assert(outs[j] == y && y < b.inputs);
        },
        Source::Node(id, o2) => {
            let u = id.index_of() as int;
            assert(0 <= u < n && o2 < b.shapes[u].outputs);
            lemma_node_slots(b, u);
            let q = lemma_position(b, tables, plan, resolved, u);
            assert(reaches(b, tables, x, plan.nodes[q].index as int, o2 as int) <==> last[output_start(
                b.inputs,
                b.shapes,
                plan.nodes[q].index as int,
            ) + o2].contains(x));
        },
    }
}

/// Dependencies grow along every connection: when published output `j`
/// comes from node `v`, and input `i` of `v`, on which that output depends,
/// is connected to the source published as output `j2`, every plan input
/// on which output `j2` depends is also one on which output `j` depends.
pub proof fn lemma_dependencies_grow_along_connections(
    b: BuilderView,
    outputs: Seq<Source>,
    tables: Seq<Seq<Seq<bool>>>,
    plan: PlanView,
    j: int,
    j2: int,
    node: NodeId,
    o: usize,
    i: int,
    x: usize,
)
    requires
        b.sources.len() == b.shapes.len(),
        tables_fit(b, tables),
        build_error(b, outputs) is None,
        built_plan(b, outputs, tables, plan),
        0 <= j < outputs.len(),
        0 <= j2 < outputs.len(),
        outputs[j] == Source::Node(node, o),
        0 <= i < b.sources[node.index_of() as int].len(),
        tables[node.index_of() as int][o as int][i],
        b.sources[node.index_of() as int][i] == outputs[j2],
    ensures
        plan.dependencies[j2].contains(x) ==> plan.dependencies[j].contains(x),
{
    lemma_dependencies_follow_chains(b, outputs, tables, plan, j, x);
    lemma_dependencies_follow_chains(b, outputs, tables, plan, j2, x);
    let v = node.index_of() as int;
    if plan.dependencies[j2].contains(x) {
        match outputs[j2] {
            Source::Input(y) => {
                assert(reaches_within(b, tables, x, v, o as int, 0));
            },
            Source::Node(id, o2) => {
                let f = choose|f: nat|
                    #[trigger] reaches_within(b, tables, x, id.index_of() as int, o2 as int, f);
                assert(reaches_within(b, tables, x, v, o as int, f + 1));
            },
        }
    }
}

} // verus!
