//! Validated wiring of operator nodes, execution order and buffer layout.

use std::ops::Range;

use vstd::prelude::*;

use std::collections::BTreeSet;

use crate::deps::{dependencies_after, output_dependencies, strictly_sorted, tables_view};
use crate::error::{check_len, Error};
use crate::operator::Shape;
use crate::order::{
    count_of, execution_order, has_edge, in_degree, is_topological, kahn_order, pending_in,
    valid_consumers, views,
};
use crate::perm::is_permutation;
use crate::sizes::{array_fits, array_layout_fits};

verus! {

/// A node belonging to one plan builder.
#[derive(Clone, Copy, Debug, PartialEq, Eq, Structural)]
pub struct NodeId {
    epoch: u64,
    index: usize,
}

/// Source of one active scalar input or published output.
#[derive(Clone, Copy, Debug, PartialEq, Eq, Structural)]
pub enum Source {
    /// An input of the whole plan.
    Input(usize),
    /// An output of an operator instance.
    Node(NodeId, usize),
}

impl NodeId {
    /// Identity of the builder that created this node.
    pub closed spec fn epoch_of(self) -> u64 {
        self.epoch
    }

    /// Insertion index of this node in its builder.
    pub closed spec fn index_of(self) -> usize {
        self.index
    }

    /// Select a scalar output of this node.
    pub fn output(self, index: usize) -> (source: Source)
        ensures
            source == Source::Node(self, index),
    {
        Source::Node(self, index)
    }
}

/// One operator node of a built plan.
pub struct PlanNode {
    /// Insertion index in the builder.
    pub index: usize,
    /// Slot read by each operator input.
    pub sources: Vec<usize>,
    /// Slots holding copies of the operator inputs.
    pub inputs: Range<usize>,
    /// Slots holding the operator outputs.
    pub outputs: Range<usize>,
}

struct PendingNode {
    shape: Shape,
    sources: Vec<Source>,
}

/// Editable wiring; building consumes it and publishes an immutable plan.
pub struct PlanBuilder {
    epoch: u64,
    inputs: usize,
    nodes: Vec<PendingNode>,
}

/// Abstract contents of a builder.
pub struct BuilderView {
    /// Identity shared by all nodes of the builder.
    pub epoch: u64,
    /// Number of plan inputs.
    pub inputs: usize,
    /// Dimensions of each node, in insertion order.
    pub shapes: Seq<Shape>,
    /// Connections of each node, in insertion order.
    pub sources: Seq<Seq<Source>>,
}

impl View for PlanBuilder {
    type V = BuilderView;

    closed spec fn view(&self) -> BuilderView {
        BuilderView {
            epoch: self.epoch,
            inputs: self.inputs,
            shapes: Seq::new(self.nodes@.len(), |k: int| self.nodes@[k].shape),
            sources: Seq::new(self.nodes@.len(), |k: int| self.nodes@[k].sources@),
        }
    }
}

/// First slot of node `k`: plan inputs come first, then each node's input
/// copies followed by its outputs, in insertion order.
pub open spec fn slot_start(inputs: usize, shapes: Seq<Shape>, k: int) -> int
    decreases k,
{
    if k <= 0 {
        inputs as int
    } else {
        slot_start(inputs, shapes, k - 1) + shapes[k - 1].inputs + shapes[k - 1].outputs
    }
}

/// First output slot of node `k`.
pub open spec fn output_start(inputs: usize, shapes: Seq<Shape>, k: int) -> int {
    slot_start(inputs, shapes, k) + shapes[k].inputs
}

/// Slot that a source names, or why it names none.
pub open spec fn resolve_spec(b: BuilderView, source: Source) -> Result<usize, Error> {
    match source {
        Source::Input(index) => if index < b.inputs {
            Ok(index)
        } else {
            Err(Error::InvalidSource)
        },
        Source::Node(id, index) => if id.epoch_of() != b.epoch {
            Err(Error::ForeignNode)
        } else if id.index_of() >= b.shapes.len() {
            Err(Error::InvalidSource)
        } else if index >= b.shapes[id.index_of() as int].outputs {
            Err(Error::InvalidSource)
        } else {
            Ok((output_start(b.inputs, b.shapes, id.index_of() as int) + index) as usize)
        },
    }
}

/// Slots of a list of sources, or the first failure in list order.
pub open spec fn resolve_all(b: BuilderView, sources: Seq<Source>) -> Result<Seq<usize>, Error>
    decreases sources.len(),
{
    if sources.len() == 0 {
        Ok(Seq::empty())
    } else {
        match resolve_all(b, sources.drop_last()) {
            Err(e) => Err(e),
            Ok(prefix) => match resolve_spec(b, sources.last()) {
                Err(e) => Err(e),
                Ok(slot) => Ok(prefix.push(slot)),
            },
        }
    }
}

/// Resolved sources of nodes `0..k`, or the first failure: a node whose
/// connection count differs from its input count, or a bad connection.
pub open spec fn resolve_nodes(b: BuilderView, k: int) -> Result<Seq<Seq<usize>>, Error>
    decreases k,
{
    if k <= 0 {
        Ok(Seq::empty())
    } else {
        match resolve_nodes(b, k - 1) {
            Err(e) => Err(e),
            Ok(prefix) => if b.sources[k - 1].len() != b.shapes[k - 1].inputs {
                Err(
                    Error::Dimension {
                        buffer: "node inputs",
                        expected: b.shapes[k - 1].inputs,
                        actual: b.sources[k - 1].len() as usize,
                    },
                )
            } else {
                match resolve_all(b, b.sources[k - 1]) {
                    Err(e) => Err(e),
                    Ok(slots) => Ok(prefix.push(slots)),
                }
            },
        }
    }
}

/// The source is an output of node `u`.
pub open spec fn names_node(source: Source, u: int) -> bool {
    match source {
        Source::Node(id, _) => id.index_of() == u,
        Source::Input(_) => false,
    }
}

/// Number of entries of `sources` that name an output of node `u`.
pub open spec fn naming_count(sources: Seq<Source>, u: int) -> nat
    decreases sources.len(),
{
    if sources.len() == 0 {
        0
    } else {
        naming_count(sources.drop_last(), u) + if names_node(sources.last(), u) {
            1nat
        } else {
            0nat
        }
    }
}

/// Readers of node `u` among nodes `0..m`, in node order, each repeated once
/// per connection to an output of `u`.
pub open spec fn consumers_of(b: BuilderView, u: int, m: int) -> Seq<usize>
    decreases m,
{
    if m <= 0 {
        Seq::empty()
    } else {
        consumers_of(b, u, m - 1) + Seq::new(naming_count(b.sources[m - 1], u), |i: int| (m - 1) as usize)
    }
}

/// Readers of every node.
pub open spec fn consumer_lists(b: BuilderView) -> Seq<Seq<usize>> {
    Seq::new(b.shapes.len(), |u: int| consumers_of(b, u, b.shapes.len() as int))
}

/// Number of connections into each node from node outputs.
pub open spec fn node_indegrees(b: BuilderView) -> Seq<usize> {
    Seq::new(b.shapes.len(), |v: int| in_degree(consumer_lists(b), v as usize) as usize)
}

/// Node `v` reads an output of node `u`.
pub open spec fn reads(b: BuilderView, u: int, v: int) -> bool {
    0 <= v < b.sources.len() && exists|j: int|
        0 <= j < b.sources[v].len() && names_node(#[trigger] b.sources[v][j], u)
}

/// Immutable wiring: execution order, buffer layout and conservative output
/// dependencies.
pub struct Plan {
    epoch: u64,
    inputs: usize,
    nodes: Vec<PlanNode>,
    outputs: Vec<usize>,
    slots: usize,
    dependencies: Vec<Vec<usize>>,
}

/// Abstract contents of a plan.
pub struct PlanView {
    /// Identity of the builder the plan came from.
    pub epoch: u64,
    /// Number of plan inputs.
    pub inputs: usize,
    /// Operator nodes in execution order.
    pub nodes: Seq<PlanNode>,
    /// Slot of each published output.
    pub outputs: Seq<usize>,
    /// Total number of value slots.
    pub slots: usize,
    /// Sorted plan inputs that may affect each published output.
    pub dependencies: Seq<Seq<usize>>,
}

/// Slot `slot` holds a plan input or an output of a node before position `p`.
pub open spec fn computed_before(plan: PlanView, p: int, slot: usize) -> bool {
    slot < plan.inputs || exists|q: int|
        0 <= q < p && (#[trigger] plan.nodes[q]).outputs.start <= slot < plan.nodes[q].outputs.end
}

/// A node's input copies are followed by its outputs, all within the slots,
/// with one input copy per source and no source among its own input copies.
pub open spec fn node_fits(node: PlanNode, slots: usize) -> bool {
    &&& node.inputs.start <= node.inputs.end
    &&& node.inputs.end == node.outputs.start
    &&& node.outputs.start <= node.outputs.end <= slots
    &&& node.inputs.end - node.inputs.start == node.sources@.len()
    &&& forall|i: int|
        0 <= i < node.sources@.len() ==> #[trigger] node.sources@[i] < slots && !(node.inputs.start
            <= node.sources@[i] < node.inputs.end)
}

/// Every node fits the slots and reads only plan inputs and outputs of the
/// nodes that run before it; published outputs lie within the slots.
pub open spec fn well_wired(plan: PlanView) -> bool {
    &&& plan.inputs <= plan.slots
    &&& forall|j: int| 0 <= j < plan.outputs.len() ==> #[trigger] plan.outputs[j] < plan.slots
    &&& forall|p: int| 0 <= p < plan.nodes.len() ==> node_fits(#[trigger] plan.nodes[p], plan.slots)
    &&& forall|p: int, i: int|
        0 <= p < plan.nodes.len() && 0 <= i < plan.nodes[p].sources@.len() ==> computed_before(
            plan,
            p,
            #[trigger] plan.nodes[p].sources@[i],
        )
}

/// `values` after copying each source of `node` into its input slots.
pub open spec fn gathered<T>(values: Seq<T>, node: PlanNode) -> Seq<T> {
    Seq::new(
        values.len(),
        |s: int|
            if node.inputs.start <= s < node.inputs.end {
                values[node.sources@[s - node.inputs.start] as int]
            } else {
                values[s]
            },
    )
}

impl Plan {
    /// Wiring fits the slots and runs forward; one strictly increasing
    /// dependency list per published output.
    #[verifier::type_invariant]
    spec fn plan_invariant(self) -> bool {
        &&& well_wired(self@)
        &&& self.dependencies@.len() == self.outputs@.len()
        &&& forall|j: int|
            0 <= j < self.dependencies@.len() ==> strictly_sorted(#[trigger] self.dependencies@[j]@)
    }
}

impl View for Plan {
    type V = PlanView;

    closed spec fn view(&self) -> PlanView {
        PlanView {
            epoch: self.epoch,
            inputs: self.inputs,
            nodes: self.nodes@,
            outputs: self.outputs@,
            slots: self.slots,
            dependencies: Seq::new(self.dependencies@.len(), |j: int| self.dependencies@[j]@),
        }
    }
}

/// `order` runs every node after the nodes whose outputs it reads.
pub open spec fn is_reading_order(b: BuilderView, order: Seq<usize>) -> bool {
    &&& is_permutation(order)
    &&& order.len() == b.shapes.len()
    &&& forall|p: int, q: int|
        0 <= p < order.len() && 0 <= q < order.len() && #[trigger] reads(
            b,
            order[p] as int,
            order[q] as int,
        ) ==> p < q
}

/// Slot layout of a built plan: node `order[p]` stands at position `p`, with
/// its input copies and outputs at their layout ranges and its sources
/// resolved.
pub open spec fn plan_layout_matches(b: BuilderView, resolved: Seq<Seq<usize>>, plan: PlanView) -> bool {
    &&& plan.nodes.len() == b.shapes.len()
    &&& is_reading_order(b, Seq::new(plan.nodes.len(), |p: int| plan.nodes[p].index))
    &&& forall|p: int|
        #![trigger plan.nodes[p]]
        0 <= p < plan.nodes.len() ==> {
            let k = plan.nodes[p].index as int;
            &&& plan.nodes[p].sources@ == resolved[k]
            &&& plan.nodes[p].inputs.start == slot_start(b.inputs, b.shapes, k)
            &&& plan.nodes[p].inputs.end == output_start(b.inputs, b.shapes, k)
            &&& plan.nodes[p].outputs.start == output_start(b.inputs, b.shapes, k)
            &&& plan.nodes[p].outputs.end == slot_start(b.inputs, b.shapes, k + 1)
        }
}

/// Each dependency table has one row per output and one entry per input.
pub open spec fn tables_fit(b: BuilderView, tables: Seq<Seq<Seq<bool>>>) -> bool {
    &&& tables.len() == b.shapes.len()
    &&& forall|k: int|
        #![trigger tables[k]]
        0 <= k < tables.len() ==> tables[k].len() == b.shapes[k].outputs && forall|o: int|
            0 <= o < tables[k].len() ==> #[trigger] tables[k][o].len() == b.shapes[k].inputs
}

pub(crate) proof fn lemma_slot_start_monotone(inputs: usize, shapes: Seq<Shape>, a: int, c: int)
    requires
        0 <= a <= c,
    ensures
        slot_start(inputs, shapes, a) <= slot_start(inputs, shapes, c),
    decreases c - a,
{
    if a < c {
        lemma_slot_start_monotone(inputs, shapes, a, c - 1);
    }
}

proof fn lemma_count_push(s: Seq<usize>, v: usize, w: usize)
    ensures
        count_of(s.push(v), w) == count_of(s, w) + (if v == w {
            1nat
        } else {
            0nat
        }),
    decreases s.len(),
{
    if s.len() > 0 {
        assert(s.push(v).drop_first() =~= s.drop_first().push(v));
        lemma_count_push(s.drop_first(), v, w);
    } else {
        assert(s.push(v).drop_first() =~= Seq::<usize>::empty());
        assert(count_of(Seq::<usize>::empty(), w) == 0);
    }
}

proof fn lemma_pending_push(
    cs: Seq<Seq<usize>>,
    u: int,
    v: usize,
    w: usize,
    m: int,
)
    requires
        0 <= u < cs.len(),
        m <= cs.len(),
    ensures
        pending_in(cs.update(u, cs[u].push(v)), Set::empty(), w, m) == pending_in(
            cs,
            Set::empty(),
            w,
            m,
        ) + (if v == w && u < m {
            1nat
        } else {
            0nat
        }),
    decreases m,
{
    if m > 0 {
        lemma_pending_push(cs, u, v, w, m - 1);
        let updated = cs.update(u, cs[u].push(v));
        if m - 1 == u {
            lemma_count_push(cs[u], v, w);
            assert(updated[m - 1] == cs[u].push(v));
        } else {
            assert(updated[m - 1] == cs[m - 1]);
        }
    }
}

/// Why building fails, or `None` when it succeeds: an overflowing slot
/// layout, a bad published output, a bad node connection (in node order),
/// or connections that admit no execution order.
pub open spec fn build_error(b: BuilderView, outputs: Seq<Source>) -> Option<Error> {
    let total = slot_start(b.inputs, b.shapes, b.shapes.len() as int);
    if total > usize::MAX {
        Some(Error::SizeOverflow)
    } else if !array_fits::<BTreeSet<usize>>(total as usize) {
        Some(Error::SizeOverflow)
    } else {
        match resolve_all(b, outputs) {
            Err(e) => Some(e),
            Ok(_) => match resolve_nodes(b, b.shapes.len() as int) {
                Err(e) => Some(e),
                Ok(_) => if exists|ord: Seq<usize>| is_reading_order(b, ord) {
                    None
                } else {
                    Some(Error::Cycle)
                },
            },
        }
    }
}

/// A successfully built plan: its identity, inputs, slot count, published
/// slots, node layout in a reading order, and the dependencies of each
/// published output after running all nodes.
pub open spec fn built_plan(
    b: BuilderView,
    outputs: Seq<Source>,
    tables: Seq<Seq<Seq<bool>>>,
    plan: PlanView,
) -> bool {
    let total = slot_start(b.inputs, b.shapes, b.shapes.len() as int);
    match (resolve_all(b, outputs), resolve_nodes(b, b.shapes.len() as int)) {
        (Ok(outs), Ok(resolved)) => {
            &&& plan.epoch == b.epoch
            &&& plan.inputs == b.inputs
            &&& plan.slots == total
            &&& plan.outputs == outs
            &&& plan_layout_matches(b, resolved, plan)
            &&& Seq::new(plan.nodes.len(), |p: int| plan.nodes[p].index) == kahn_order(
                consumer_lists(b),
                node_indegrees(b),
            )
            &&& plan.dependencies.len() == outs.len()
            &&& forall|j: int| 0 <= j < outs.len() ==> strictly_sorted(#[trigger] plan.dependencies[j])
            &&& forall|j: int, x: usize|
                0 <= j < outs.len() ==> (#[trigger] plan.dependencies[j].contains(x)
                    <==> dependencies_after(
                    b.inputs,
                    plan.slots,
                    plan.nodes,
                    tables,
                    plan.nodes.len() as int,
                )[outs[j] as int].contains(x))
        },
        _ => false,
    }
}

pub(crate) proof fn lemma_resolve_all_ok(b: BuilderView, s: Seq<Source>)
    requires
        resolve_all(b, s) is Ok,
    ensures
        resolve_all(b, s)->Ok_0.len() == s.len(),
        forall|i: int|
            0 <= i < s.len() ==> resolve_spec(b, #[trigger] s[i]) == Ok::<usize, Error>(
                resolve_all(b, s)->Ok_0[i],
            ),
    decreases s.len(),
{
    if s.len() > 0 {
        lemma_resolve_all_ok(b, s.drop_last());
        assert forall|i: int| 0 <= i < s.len() implies resolve_spec(b, #[trigger] s[i]) == Ok::<
            usize,
            Error,
        >(resolve_all(b, s)->Ok_0[i]) by {
            if i < s.len() - 1 {
                assert(s[i] == s.drop_last()[i]);
            }
        }
    }
}

proof fn lemma_resolve_all_prefix_err(b: BuilderView, s: Seq<Source>, j: int)
    requires
        0 <= j <= s.len(),
        resolve_all(b, s.take(j)) is Err,
    ensures
        resolve_all(b, s) == resolve_all(b, s.take(j)),
    decreases s.len() - j,
{
    if j < s.len() {
        assert(s.take(j + 1).drop_last() =~= s.take(j));
        lemma_resolve_all_prefix_err(b, s, j + 1);
    } else {
        assert(s.take(j) =~= s);
    }
}

proof fn lemma_resolve_nodes_prefix_err(b: BuilderView, k: int, n: int)
    requires
        0 <= k <= n,
        resolve_nodes(b, k) is Err,
    ensures
        resolve_nodes(b, n) == resolve_nodes(b, k),
    decreases n - k,
{
    if k < n {
        lemma_resolve_nodes_prefix_err(b, k + 1, n);
    }
}

pub(crate) proof fn lemma_resolve_nodes_ok(b: BuilderView, k: int)
    requires
        0 <= k,
        resolve_nodes(b, k) is Ok,
    ensures
        resolve_nodes(b, k)->Ok_0.len() == k,
        forall|v: int|
            0 <= v < k ==> b.sources[v].len() == b.shapes[v].inputs && #[trigger] resolve_all(
                b,
                b.sources[v],
            ) == Ok::<Seq<usize>, Error>(resolve_nodes(b, k)->Ok_0[v]),
    decreases k,
{
    if k > 0 {
        lemma_resolve_nodes_ok(b, k - 1);
    }
}

proof fn lemma_in_degree_absent(cs: Seq<Seq<usize>>, w: usize, m: int)
    requires
        m <= cs.len(),
        forall|u: int| 0 <= u < m ==> !(#[trigger] cs[u]).contains(w),
    ensures
        pending_in(cs, Set::empty(), w, m) == 0,
    decreases m,
{
    if m > 0 {
        lemma_in_degree_absent(cs, w, m - 1);
        crate::order::lemma_count_positive(cs[m - 1], w);
    }
}

/// `ranges[k]` holds the first slot, the first output slot and the end of
/// node `k`, and every slot fits a `usize`.
spec fn layout_ranges(b: BuilderView, ranges: Seq<(usize, usize, usize)>) -> bool {
    &&& ranges.len() == b.shapes.len()
    &&& slot_start(b.inputs, b.shapes, b.shapes.len() as int) <= usize::MAX
    &&& forall|k: int|
        0 <= k < ranges.len() ==> {
            &&& (#[trigger] ranges[k]).0 == slot_start(b.inputs, b.shapes, k)
            &&& ranges[k].1 == output_start(b.inputs, b.shapes, k)
            &&& ranges[k].2 == slot_start(b.inputs, b.shapes, k + 1)
        }
}

/// `consumers[u]` contains `v` exactly when node `v` reads an output of node
/// `u`, and `indegree` counts the consumer entries naming each node.
spec fn wiring(b: BuilderView, consumers: Seq<Seq<usize>>, indegree: Seq<usize>) -> bool {
    &&& consumers.len() == b.shapes.len()
    &&& indegree.len() == b.shapes.len()
    &&& valid_consumers(consumers)
    &&& forall|u: int, v: int|
        #![trigger consumers[u].contains(v as usize)]
        #![trigger reads(b, u, v)]
        0 <= u < b.shapes.len() && 0 <= v < b.shapes.len() ==> (consumers[u].contains(v as usize)
            <==> reads(b, u, v))
    &&& forall|w: int|
        0 <= w < b.shapes.len() ==> #[trigger] indegree[w] == in_degree(consumers, w as usize)
}

/// Where a resolved source lies in the slot layout.
proof fn lemma_resolved_bounds(b: BuilderView, source: Source)
    requires
        resolve_spec(b, source) is Ok,
        slot_start(b.inputs, b.shapes, b.shapes.len() as int) <= usize::MAX,
    ensures
        resolve_spec(b, source)->Ok_0 < slot_start(b.inputs, b.shapes, b.shapes.len() as int),
        source is Input ==> resolve_spec(b, source)->Ok_0 < b.inputs,
        forall|u: int|
            #[trigger] names_node(source, u) ==> {
                &&& 0 <= u < b.shapes.len()
                &&& output_start(b.inputs, b.shapes, u) <= resolve_spec(b, source)->Ok_0
                &&& resolve_spec(b, source)->Ok_0 < slot_start(b.inputs, b.shapes, u + 1)
            },
{
    let n = b.shapes.len() as int;
    lemma_slot_start_monotone(b.inputs, b.shapes, 0, n);
    match source {
        Source::Input(_) => {},
        Source::Node(id, _) => {
            let u = id.index_of() as int;
            lemma_slot_start_monotone(b.inputs, b.shapes, u + 1, n);
            lemma_slot_start_monotone(b.inputs, b.shapes, 0, u);
        },
    }
}

/// Under a faithful wiring, reading orders are the topological orders of
/// the consumer graph.
proof fn lemma_reading_order_topological(b: BuilderView, cs: Seq<Seq<usize>>, indegree: Seq<usize>, ord: Seq<usize>)
    requires
        wiring(b, cs, indegree),
        is_permutation(ord),
        ord.len() == b.shapes.len(),
    ensures
        is_reading_order(b, ord) <==> is_topological(ord, cs),
{
    if is_reading_order(b, ord) {
        assert forall|p: int, q: int|
            0 <= p < ord.len() && 0 <= q < ord.len() && #[trigger] has_edge(
                cs,
                ord[p] as int,
                ord[q] as int,
            ) implies p < q by {
            assert(cs[ord[p] as int].contains(ord[q]));
            assert(reads(b, ord[p] as int, ord[q] as int));
        }
    }
    if is_topological(ord, cs) {
        assert forall|p: int, q: int|
            0 <= p < ord.len() && 0 <= q < ord.len() && #[trigger] reads(
                b,
                ord[p] as int,
                ord[q] as int,
            ) implies p < q by {
            assert(cs[ord[p] as int].contains(ord[q]));
            assert(has_edge(cs, ord[p] as int, ord[q] as int));
        }
    }
}

/// Nodes listed in `order`, each with its resolved sources and slot ranges.
fn arrange(order: &Vec<usize>, ranges: &Vec<(usize, usize, usize)>, sources: &Vec<Vec<usize>>) -> (nodes:
    Vec<PlanNode>)
    requires
        sources@.len() == ranges@.len(),
        forall|q: int| 0 <= q < order@.len() ==> #[trigger] order@[q] < ranges@.len(),
    ensures
        nodes@.len() == order@.len(),
        forall|q: int|
            #![trigger nodes@[q]]
            0 <= q < order@.len() ==> {
                let k = order@[q] as int;
                &&& nodes@[q].index == order@[q]
                &&& nodes@[q].sources@ == sources@[k]@
                &&& nodes@[q].inputs.start == ranges@[k].0
                &&& nodes@[q].inputs.end == ranges@[k].1
                &&& nodes@[q].outputs.start == ranges@[k].1
                &&& nodes@[q].outputs.end == ranges@[k].2
            },
{
    let mut nodes: Vec<PlanNode> = Vec::with_capacity(order.len());
    let mut p: usize = 0;
    while p < order.len()
        invariant
            sources@.len() == ranges@.len(),
            forall|q: int| 0 <= q < order@.len() ==> #[trigger] order@[q] < ranges@.len(),
            p <= order@.len(),
            nodes@.len() == p,
            forall|q: int|
                #![trigger nodes@[q]]
                0 <= q < p ==> {
                    let k = order@[q] as int;
                    &&& nodes@[q].index == order@[q]
                    &&& nodes@[q].sources@ == sources@[k]@
                    &&& nodes@[q].inputs.start == ranges@[k].0
                    &&& nodes@[q].inputs.end == ranges@[k].1
                    &&& nodes@[q].outputs.start == ranges@[k].1
                    &&& nodes@[q].outputs.end == ranges@[k].2
                },
        decreases order@.len() - p,
    {
        let k = order[p];
        let (start, middle, end) = ranges[k];
        let copy = sources[k].clone();
        assert(copy@ =~= sources@[k as int]@);
        nodes.push(
            PlanNode {
                index: k,
                sources: copy,
                inputs: Range { start: start, end: middle },
                outputs: Range { start: middle, end: end },
            },
        );
        p = p + 1;
    }
    nodes
}

impl PlanBuilder {
    /// Slot named by a source, given the layout of every node.
    fn resolve(&self, ranges: &Vec<(usize, usize, usize)>, source: Source) -> (result: Result<
        usize,
        Error,
    >)
        requires
            layout_ranges(self@, ranges@),
        ensures
            result == resolve_spec(self@, source),
    {
        match source {
            Source::Input(index) => if index < self.inputs {
                Ok(index)
            } else {
                Err(Error::InvalidSource)
            },
            Source::Node(id, index) => {
                if id.epoch != self.epoch {
                    return Err(Error::ForeignNode);
                }
                if id.index >= ranges.len() {
                    return Err(Error::InvalidSource);
                }
                let (_, middle, end) = ranges[id.index];
                proof {
                    lemma_slot_start_monotone(
                        self@.inputs,
                        self@.shapes,
                        id.index as int + 1,
                        ranges@.len() as int,
                    );
                    lemma_slot_start_monotone(self@.inputs, self@.shapes, 0, id.index as int);
                }
                if index >= end - middle {
                    return Err(Error::InvalidSource);
                }
                Ok(middle + index)
            },
        }
    }

    /// Slots named by a list of sources, or the first failure in list order.
    fn resolve_list(&self, ranges: &Vec<(usize, usize, usize)>, list: &Vec<Source>) -> (result:
        Result<Vec<usize>, Error>)
        requires
            layout_ranges(self@, ranges@),
        ensures
            match result {
                Ok(slots) => resolve_all(self@, list@) == Ok::<Seq<usize>, Error>(slots@),
                Err(e) => resolve_all(self@, list@) == Err::<Seq<usize>, Error>(e),
            },
    {
        let mut resolved: Vec<usize> = Vec::with_capacity(list.len());
        let mut j: usize = 0;
        while j < list.len()
            invariant
                layout_ranges(self@, ranges@),
                j <= list@.len(),
                resolve_all(self@, list@.take(j as int)) == Ok::<Seq<usize>, Error>(resolved@),
            decreases list@.len() - j,
        {
            assert(list@.take(j as int + 1).drop_last() =~= list@.take(j as int));
            match self.resolve(ranges, list[j]) {
                Err(e) => {
                    proof {
                        lemma_resolve_all_prefix_err(self@, list@, j as int + 1);
                    }
                    return Err(e);
                },
                Ok(slot) => {
                    resolved.push(slot);
                },
            }
            j = j + 1;
        }
        assert(list@.take(list@.len() as int) =~= list@);
        Ok(resolved)
    }

    /// Slot ranges of every node and the total slot count, or `None` when
    /// the layout does not fit a `usize`.
    fn layout(&self) -> (result: Option<(Vec<(usize, usize, usize)>, usize)>)
        ensures
            match result {
                Some((ranges, total)) => {
                    &&& layout_ranges(self@, ranges@)
                    &&& total == slot_start(self@.inputs, self@.shapes, self@.shapes.len() as int)
                },
                None => slot_start(self@.inputs, self@.shapes, self@.shapes.len() as int)
                    > usize::MAX,
            },
    {
        let ghost b = self@;
        let n = self.nodes.len();
        let mut slots = self.inputs;
        let mut ranges: Vec<(usize, usize, usize)> = Vec::with_capacity(n);
        let mut k: usize = 0;
        while k < n
            invariant
                b == self@,
                n == b.shapes.len(),
                k <= n,
                slots == slot_start(b.inputs, b.shapes, k as int),
                ranges@.len() == k,
                forall|j: int|
                    0 <= j < k ==> {
                        &&& (#[trigger] ranges@[j]).0 == slot_start(b.inputs, b.shapes, j)
                        &&& ranges@[j].1 == output_start(b.inputs, b.shapes, j)
                        &&& ranges@[j].2 == slot_start(b.inputs, b.shapes, j + 1)
                    },
            decreases n - k,
        {
            let shape = self.nodes[k].shape;
            assert(shape == b.shapes[k as int]);
            proof {
                lemma_slot_start_monotone(b.inputs, b.shapes, k as int + 1, n as int);
            }
            let middle = match slots.checked_add(shape.inputs) {
                Some(value) => value,
                None => {
                    return None;
                },
            };
            let end = match middle.checked_add(shape.outputs) {
                Some(value) => value,
                None => {
                    return None;
                },
            };
            ranges.push((slots, middle, end));
            slots = end;
            k = k + 1;
        }
        Some((ranges, slots))
    }

    /// Resolved sources of every node, consumer lists and in-degrees, or the
    /// first failing node.
    fn wire(&self, ranges: &Vec<(usize, usize, usize)>) -> (result: Result<
        (Vec<Vec<usize>>, Vec<Vec<usize>>, Vec<usize>),
        Error,
    >)
        requires
            layout_ranges(self@, ranges@),
        ensures
            match result {
                Ok((sources, consumers, indegree)) => {
                    &&& resolve_nodes(self@, self@.shapes.len() as int) == Ok::<
                        Seq<Seq<usize>>,
                        Error,
                    >(views(sources@))
                    &&& wiring(self@, views(consumers@), indegree@)
                    &&& views(consumers@) == consumer_lists(self@)
                    &&& indegree@ == node_indegrees(self@)
                },
                Err(e) => resolve_nodes(self@, self@.shapes.len() as int) == Err::<
                    Seq<Seq<usize>>,
                    Error,
                >(e),
            },
    {
        let ghost b = self@;
        let n = self.nodes.len();
        let mut consumers: Vec<Vec<usize>> = Vec::with_capacity(n);
        let mut indegree: Vec<usize> = Vec::with_capacity(n);
        let mut sources: Vec<Vec<usize>> = Vec::with_capacity(n);
        let mut t: usize = 0;
        while t < n
            invariant
                t <= n,
                consumers@.len() == t,
                indegree@.len() == t,
                forall|u: int| 0 <= u < t ==> (#[trigger] consumers@[u])@.len() == 0,
                forall|u: int| 0 <= u < t ==> #[trigger] indegree@[u] == 0,
            decreases n - t,
        {
            consumers.push(Vec::new());
            indegree.push(0);
            t = t + 1;
        }
        proof {
            assert forall|w: int| 0 <= w < n implies #[trigger] indegree@[w] == in_degree(
                views(consumers@),
                w as usize,
            ) by {
                lemma_in_degree_absent(views(consumers@), w as usize, n as int);
            }
        }
        assert(views(sources@) =~= Seq::<Seq<usize>>::empty());
        assert forall|u: int| 0 <= u < n implies (#[trigger] consumers@[u])@ == consumers_of(b, u, 0) by {
            assert(consumers@[u]@ =~= Seq::<usize>::empty());
        }
        let mut index: usize = 0;
        while index < n
            invariant
                b == self@,
                n == b.shapes.len(),
                layout_ranges(b, ranges@),
                index <= n,
                resolve_nodes(b, index as int) == Ok::<Seq<Seq<usize>>, Error>(views(sources@)),
                consumers@.len() == n,
                indegree@.len() == n,
                forall|u: int, c: int|
                    0 <= u < n && 0 <= c < consumers@[u]@.len() ==> #[trigger] consumers@[u]@[c]
                        < index,
                forall|u: int, v: int|
                    #![trigger consumers@[u]@.contains(v as usize)]
                    #![trigger reads(b, u, v)]
                    0 <= u < n && 0 <= v < index ==> (consumers@[u]@.contains(v as usize) <==> reads(
                        b,
                        u,
                        v,
                    )),
                forall|w: int|
                    0 <= w < n ==> #[trigger] indegree@[w] == in_degree(
                        views(consumers@),
                        w as usize,
                    ),
                forall|u: int| 0 <= u < n ==> (#[trigger] consumers@[u])@ == consumers_of(b, u, index as int),
            decreases n - index,
        {
            let node = &self.nodes[index];
            assert(node.sources@ == b.sources[index as int]);
            match check_len("node inputs", node.sources.len(), node.shape.inputs) {
                Err(e) => {
                    proof {
                        lemma_resolve_nodes_prefix_err(b, index as int + 1, n as int);
                    }
                    return Err(e);
                },
                Ok(()) => {},
            }
            let resolved = match self.resolve_list(ranges, &node.sources) {
                Err(e) => {
                    proof {
                        lemma_resolve_nodes_prefix_err(b, index as int + 1, n as int);
                    }
                    return Err(e);
                },
                Ok(resolved) => resolved,
            };
            proof {
                lemma_resolve_all_ok(b, node.sources@);
                assert forall|u: int| 0 <= u < n implies !(#[trigger] views(consumers@)[u]).contains(
                    index,
                ) by {
                    if consumers@[u]@.contains(index) {
                        let c = choose|c: int|
                            0 <= c < consumers@[u]@.len() && consumers@[u]@[c] == index;
                        assert(consumers@[u]@[c] < index);
                    }
                }
                lemma_in_degree_absent(views(consumers@), index, n as int);
            }
            let ghost old_sources = sources@;
            sources.push(resolved);
            assert(views(sources@) =~= views(old_sources).push(resolved@));
            proof {
                assert(node.sources@.take(0) =~= Seq::<Source>::empty());
                assert forall|u: int| 0 <= u < n implies (#[trigger] consumers@[u])@ == consumers_of(
                    b,
                    u,
                    index as int,
                ) + Seq::new(naming_count(node.sources@.take(0), u), |i: int| index) by {
                    assert(consumers_of(b, u, index as int) + Seq::new(0, |i: int| index)
                        =~= consumers_of(b, u, index as int));
                }
            }
            let mut j: usize = 0;
            while j < node.sources.len()
                invariant
                    b == self@,
                    n == b.shapes.len(),
                    index < n,
                    node.sources@ == b.sources[index as int],
                    forall|i: int|
                        0 <= i < node.sources@.len() ==> resolve_spec(b, #[trigger] node.sources@[i])
                            is Ok,
                    j <= node.sources@.len(),
                    consumers@.len() == n,
                    indegree@.len() == n,
                    indegree@[index as int] <= j,
                    forall|u: int, c: int|
                        0 <= u < n && 0 <= c < consumers@[u]@.len() ==> #[trigger] consumers@[u]@[c]
                            <= index,
                    forall|u: int, v: int|
                        #![trigger consumers@[u]@.contains(v as usize)]
                        #![trigger reads(b, u, v)]
                        0 <= u < n && 0 <= v < index ==> (consumers@[u]@.contains(v as usize)
                            <==> reads(b, u, v)),
                    forall|u: int|
                        0 <= u < n ==> (#[trigger] consumers@[u]@.contains(index) <==> exists|i: int|
                            0 <= i < j && names_node(#[trigger] node.sources@[i], u)),
                    forall|u: int|
                        0 <= u < n ==> (#[trigger] consumers@[u])@ == consumers_of(b, u, index as int)
                            + Seq::new(
                            naming_count(node.sources@.take(j as int), u),
                            |i: int| index,
                        ),
                    forall|w: int|
                        0 <= w < n ==> #[trigger] indegree@[w] == in_degree(
                            views(consumers@),
                            w as usize,
                        ),
                decreases node.sources@.len() - j,
            {
                let source = node.sources[j];
                let ghost before = consumers@;
                match source {
                    Source::Node(id, _) => {
                        let u = id.index;
                        assert(resolve_spec(b, node.sources@[j as int]) is Ok);
                        assert(u < n);
                        let mut list: Vec<usize> = Vec::new();
                        consumers.set_and_swap(u, &mut list);
                        list.push(index);
                        consumers.set_and_swap(u, &mut list);
                        proof {
                            assert(views(consumers@) =~= views(before).update(
                                u as int,
                                views(before)[u as int].push(index),
                            ));
                            assert forall|w: int| 0 <= w < n implies #[trigger] indegree@[w] + (if w
                                == index {
                                1int
                            } else {
                                0int
                            }) == in_degree(views(consumers@), w as usize) by {
                                lemma_pending_push(
                                    views(before),
                                    u as int,
                                    index,
                                    w as usize,
                                    n as int,
                                );
                            }
                        }
                        let degree = indegree[index] + 1;
                        indegree.set(index, degree);
                        proof {
                            assert forall|w: int| 0 <= w < n && w != u as int implies #[trigger] consumers@[w]
                                == before[w] by {}
                            assert forall|v: int| 0 <= v <= index implies (#[trigger] consumers@[u as int]@.contains(
                                v as usize,
                            ) <==> before[u as int]@.contains(v as usize) || v == index) by {
                                assert(consumers@[u as int]@ == before[u as int]@.push(index));
                                if before[u as int]@.contains(v as usize) {
                                    let c = choose|c: int|
                                        0 <= c < before[u as int]@.len() && before[u as int]@[c]
                                            == v as usize;
                                    assert(consumers@[u as int]@[c] == v as usize);
                                }
                                if v == index {
                                    assert(consumers@[u as int]@[before[u as int]@.len() as int]
                                        == index);
                                }
                                if consumers@[u as int]@.contains(v as usize) && v != index {
                                    let c = choose|c: int|
                                        0 <= c < consumers@[u as int]@.len()
                                            && consumers@[u as int]@[c] == v as usize;
                                    assert(before[u as int]@[c] == v as usize);
                                }
                            }
                            assert(names_node(node.sources@[j as int], u as int));
                        }
                    },
                    Source::Input(_) => {},
                }
                proof {
                    let taken = node.sources@.take(j as int + 1);
                    assert(taken.drop_last() =~= node.sources@.take(j as int));
                    assert(taken.last() == source);
                    assert forall|u: int| 0 <= u < n implies (#[trigger] consumers@[u])@ == consumers_of(
                        b,
                        u,
                        index as int,
                    ) + Seq::new(naming_count(taken, u), |i: int| index) by {
                        let k = naming_count(node.sources@.take(j as int), u);
                        if names_node(source, u) {
                            assert(naming_count(taken, u) == k + 1);
                            assert(consumers@[u]@ == before[u]@.push(index));
                            assert((consumers_of(b, u, index as int) + Seq::new(k, |i: int| index)).push(
                                index,
                            ) =~= consumers_of(b, u, index as int) + Seq::new(k + 1, |i: int| index));
                        } else {
                            assert(naming_count(taken, u) == k);
                            assert(consumers@[u] == before[u]);
                        }
                    }
                }
                j = j + 1;
            }
            proof {
                assert forall|u: int, v: int|
                    #![trigger consumers@[u]@.contains(v as usize)]
                    #![trigger reads(b, u, v)]
                    0 <= u < n && 0 <= v < index + 1 implies (consumers@[u]@.contains(v as usize)
                    <==> reads(b, u, v)) by {
                    if v == index {
                        if reads(b, u, v) {
                            let i = choose|i: int|
                                0 <= i < b.sources[v].len() && names_node(
                                    #[trigger] b.sources[v][i],
                                    u,
                                );
                            assert(names_node(node.sources@[i], u));
                        }
                    }
                }
                assert(node.sources@.take(node.sources@.len() as int) =~= node.sources@);
                assert forall|u: int| 0 <= u < n implies (#[trigger] consumers@[u])@ == consumers_of(
                    b,
                    u,
                    index as int + 1,
                ) by {}
            }
            index = index + 1;
        }
        proof {
            assert forall|u: int, c: int|
                0 <= u < views(consumers@).len() && 0 <= c < views(consumers@)[u].len() implies #[trigger] views(
                consumers@,
            )[u][c] < views(consumers@).len() by {
                assert(consumers@[u]@[c] < n);
            }
            assert(views(consumers@) =~= consumer_lists(b));
            assert(indegree@ =~= node_indegrees(b));
        }
        Ok((sources, consumers, indegree))
    }

    /// Start an editable plan with this identity and this many active scalar inputs.
    pub fn new(epoch: u64, inputs: usize) -> (builder: Self)
        ensures
            builder@.epoch == epoch,
            builder@.inputs == inputs,
            builder@.shapes.len() == 0,
            builder@.sources.len() == 0,
    {
        PlanBuilder { epoch, inputs, nodes: Vec::new() }
    }

    /// Add an instance with these dimensions. Connections are checked when
    /// the plan is built.
    pub fn add(&mut self, shape: Shape, sources: Vec<Source>) -> (id: NodeId)
        ensures
            id.epoch_of() == old(self)@.epoch,
            id.index_of() == old(self)@.shapes.len(),
            final(self)@.epoch == old(self)@.epoch,
            final(self)@.inputs == old(self)@.inputs,
            final(self)@.shapes == old(self)@.shapes.push(shape),
            final(self)@.sources == old(self)@.sources.push(sources@),
            old(self)@.sources.len() == old(self)@.shapes.len(),
            final(self)@.sources.len() == final(self)@.shapes.len(),
    {
        let id = NodeId { epoch: self.epoch, index: self.nodes.len() };
        self.nodes.push(PendingNode { shape, sources });
        assert(self@.shapes =~= old(self)@.shapes.push(shape));
        assert(self@.sources =~= old(self)@.sources.push(sources@));
        id
    }

    /// Replace a node's inputs, including forward references to other nodes.
    ///
    /// Rejects a node from another builder or a missing node.
    pub fn connect(&mut self, node: NodeId, sources: Vec<Source>) -> (result: Result<(), Error>)
        ensures
            final(self)@.epoch == old(self)@.epoch,
            final(self)@.inputs == old(self)@.inputs,
            final(self)@.shapes == old(self)@.shapes,
            old(self)@.sources.len() == old(self)@.shapes.len(),
            final(self)@.sources.len() == final(self)@.shapes.len(),
            node.epoch_of() != old(self)@.epoch ==> result == Err::<(), Error>(
                Error::ForeignNode,
            ) && final(self)@.sources == old(self)@.sources,
            node.epoch_of() == old(self)@.epoch && node.index_of() >= old(self)@.shapes.len()
                ==> result == Err::<(), Error>(Error::InvalidSource) && final(self)@.sources
                == old(self)@.sources,
            node.epoch_of() == old(self)@.epoch && node.index_of() < old(self)@.shapes.len()
                ==> result == Ok::<(), Error>(()) && final(self)@.sources == old(
                self,
            )@.sources.update(node.index_of() as int, sources@),
    {
        if node.epoch != self.epoch {
            return Err(Error::ForeignNode);
        }
        if node.index >= self.nodes.len() {
            return Err(Error::InvalidSource);
        }
        let shape = self.nodes[node.index].shape;
        self.nodes.set(node.index, PendingNode { shape, sources });
        assert(self@.shapes =~= old(self)@.shapes);
        assert(self@.sources =~= old(self)@.sources.update(node.index as int, sources@));
        Ok(())
    }

    /// Validate wiring and cycles, then fix execution order and buffer layouts.
    ///
    /// `depends[k][o][i]` states whether output `o` of node `k` may depend on
    /// its input `i`. Rejects overflowing layouts, invalid references and
    /// input counts, and cycles, in that order of precedence.
    pub fn build(self, outputs: Vec<Source>, depends: &Vec<Vec<Vec<bool>>>) -> (result: Result<
        Plan,
        Error,
    >)
        requires
            tables_fit(self@, tables_view(depends@)),
        ensures
            match build_error(self@, outputs@) {
                Some(e) => result == Err::<Plan, Error>(e),
                None => result matches Ok(plan) && built_plan(
                    self@,
                    outputs@,
                    tables_view(depends@),
                    plan@,
                ) && well_wired(plan@),
            },
    {
        let ghost b = self@;
        let ghost tables = tables_view(depends@);
        let n = self.nodes.len();
        let (ranges, slots) = match self.layout() {
            None => {
                return Err(Error::SizeOverflow);
            },
            Some(layout) => layout,
        };
        if !array_layout_fits::<BTreeSet<usize>>(slots) {
            return Err(Error::SizeOverflow);
        }
        let resolved_outputs = match self.resolve_list(&ranges, &outputs) {
            Err(e) => {
                return Err(e);
            },
            Ok(resolved) => resolved,
        };
        let (sources, consumers, indegree) = match self.wire(&ranges) {
            Err(e) => {
                return Err(e);
            },
            Ok(wired) => wired,
        };
        let ghost cs = views(consumers@);
        let order = match execution_order(consumers.as_slice(), indegree) {
            Err(e) => {
                proof {
                    assert forall|ord: Seq<usize>| !is_reading_order(b, ord) by {
                        if is_reading_order(b, ord) {
                            lemma_reading_order_topological(b, cs, indegree@, ord);
                        }
                    }
                }
                return Err(e);
            },
            Ok(order) => order,
        };
        proof {
            lemma_reading_order_topological(b, cs, indegree@, order@);
            lemma_resolve_nodes_ok(b, n as int);
            assert(sources@.len() == views(sources@).len());
        }
        let nodes = arrange(&order, &ranges, &sources);
        let ghost resolved_nodes = views(sources@);
        proof {
            lemma_resolve_nodes_ok(b, n as int);
            lemma_slot_start_monotone(b.inputs, b.shapes, 0, n as int);
            assert forall|q: int|
                #![trigger nodes@[q]]
                0 <= q < n implies {
                let node = nodes@[q];
                &&& node.outputs.start <= node.outputs.end <= slots
                &&& node.index < tables.len()
                &&& tables[node.index as int].len() == node.outputs.end - node.outputs.start
                &&& forall|o: int|
                    0 <= o < tables[node.index as int].len()
                        ==> #[trigger] tables[node.index as int][o].len() == node.sources@.len()
                &&& forall|i: int|
                    0 <= i < node.sources@.len() ==> #[trigger] node.sources@[i] < slots && !(
                    node.outputs.start <= node.sources@[i] < node.outputs.end)
            } by {
                let node = nodes@[q];
                let v = order@[q] as int;
                lemma_slot_start_monotone(b.inputs, b.shapes, v + 1, n as int);
                lemma_slot_start_monotone(b.inputs, b.shapes, 0, v);
                lemma_resolve_all_ok(b, b.sources[v]);
                assert(node.sources@ == resolved_nodes[v]);
                assert forall|i: int| 0 <= i < node.sources@.len() implies #[trigger] node.sources@[i]
                    < slots && !(node.outputs.start <= node.sources@[i] < node.outputs.end) by {
                    let src = b.sources[v][i];
                    lemma_resolved_bounds(b, src);
                    if let Source::Node(id, _) = src {
                        let u = id.index_of() as int;
                        assert(names_node(src, u));
                        if u == v {
                            assert(reads(b, order@[q] as int, order@[q] as int));
                        } else if u < v {
                            lemma_slot_start_monotone(b.inputs, b.shapes, u + 1, v);
                        } else {
                            lemma_slot_start_monotone(b.inputs, b.shapes, v + 1, u);
                        }
                    }
                }
            }
            lemma_resolve_all_ok(b, outputs@);
            assert forall|j: int| 0 <= j < resolved_outputs@.len() implies #[trigger] resolved_outputs@[j]
                < slots by {
                lemma_resolved_bounds(b, outputs@[j]);
            }
        }
        let dependencies = output_dependencies(
            self.inputs,
            slots,
            &nodes,
            &resolved_outputs,
            depends,
        );
        proof {
            lemma_slot_start_monotone(b.inputs, b.shapes, 0, n as int);
            assert forall|q: int| 0 <= q < n implies node_fits(#[trigger] nodes@[q], slots) by {
                let node = nodes@[q];
                let v = order@[q] as int;
                lemma_slot_start_monotone(b.inputs, b.shapes, v + 1, n as int);
                lemma_slot_start_monotone(b.inputs, b.shapes, 0, v);
                lemma_resolve_all_ok(b, b.sources[v]);
                assert(node.sources@ == resolved_nodes[v]);
                assert forall|i: int| 0 <= i < node.sources@.len() implies #[trigger] node.sources@[i]
                    < slots && !(node.inputs.start <= node.sources@[i] < node.inputs.end) by {
                    let src = b.sources[v][i];
                    lemma_resolved_bounds(b, src);
                    if let Source::Node(id, _) = src {
                        let u = id.index_of() as int;
                        assert(names_node(src, u));
                        if u == v {
                            assert(reads(b, order@[q] as int, order@[q] as int));
                        } else if u < v {
                            lemma_slot_start_monotone(b.inputs, b.shapes, u + 1, v);
                        } else {
                            lemma_slot_start_monotone(b.inputs, b.shapes, v + 1, u);
                        }
                    }
                }
            }
            assert forall|q: int, i: int|
                0 <= q < n && 0 <= i < nodes@[q].sources@.len() implies (
                #[trigger] nodes@[q].sources@[i] < b.inputs || exists|q2: int|
                    0 <= q2 < q && (#[trigger] nodes@[q2]).outputs.start <= nodes@[q].sources@[i]
                        < nodes@[q2].outputs.end) by {
                let v = order@[q] as int;
                lemma_resolve_all_ok(b, b.sources[v]);
                let src = b.sources[v][i];
                lemma_resolved_bounds(b, src);
                if let Source::Node(id, _) = src {
                    let u = id.index_of() as int;
                    assert(names_node(src, u));
                    assert(order@.contains(u as usize));
                    let q2 = choose|q2: int| 0 <= q2 < order@.len() && order@[q2] == u as usize;
                    assert(reads(b, order@[q2] as int, order@[q] as int));
                    assert(nodes@[q2].outputs.start <= nodes@[q].sources@[i] < nodes@[q2].outputs.end);
                }
            }
        }
        let plan = Plan {
            epoch: self.epoch,
            inputs: self.inputs,
            nodes,
            outputs: resolved_outputs,
            slots,
            dependencies,
        };
        proof {
            assert(Seq::new(plan@.nodes.len(), |q: int| plan@.nodes[q].index) =~= order@);
            assert(is_reading_order(b, order@));
            use_type_invariant(&plan);
        }
        Ok(plan)
    }
}

impl Plan {
    /// Start a new editable plan with this identity and this many active
    /// scalar inputs.
    pub fn builder(epoch: u64, inputs: usize) -> (builder: PlanBuilder)
        ensures
            builder@.epoch == epoch,
            builder@.inputs == inputs,
            builder@.shapes.len() == 0,
            builder@.sources.len() == 0,
    {
        PlanBuilder::new(epoch, inputs)
    }

    /// Identity of this immutable plan.
    pub fn epoch(&self) -> (epoch: u64)
        ensures
            epoch == self@.epoch,
    {
        self.epoch
    }

    /// Dimensions of the composed numerical map.
    pub fn shape(&self) -> (shape: Shape)
        ensures
            shape.inputs == self@.inputs,
            shape.outputs == self@.outputs.len(),
    {
        Shape { inputs: self.inputs, outputs: self.outputs.len() }
    }

    /// Sorted input indices that may affect each published output.
    pub fn dependencies(&self) -> (dependencies: &[Vec<usize>])
        ensures
            dependencies@.len() == self@.dependencies.len(),
            forall|j: int|
                0 <= j < dependencies@.len() ==> (#[trigger] dependencies@[j])@
                    == self@.dependencies[j],
    {
        self.dependencies.as_slice()
    }

    /// Operator nodes in execution order; the wiring runs forward and fits
    /// the slots.
    pub fn nodes(&self) -> (nodes: &[PlanNode])
        ensures
            nodes@ == self@.nodes,
            well_wired(self@),
    {
        proof {
            use_type_invariant(self);
        }
        self.nodes.as_slice()
    }

    /// Slot holding each published output.
    pub fn outputs(&self) -> (outputs: &[usize])
        ensures
            outputs@ == self@.outputs,
    {
        self.outputs.as_slice()
    }

    /// Total number of value slots: plan inputs, then each node's input
    /// copies and outputs.
    pub fn slots(&self) -> (slots: usize)
        ensures
            slots == self@.slots,
    {
        self.slots
    }

    /// Whether published output `output` may depend on plan input `input`.
    pub fn depends_on(&self, output: usize, input: usize) -> (depends: bool)
        requires
            output < self@.outputs.len(),
        ensures
            depends == self@.dependencies[output as int].contains(input),
    {
        proof {
            use_type_invariant(self);
        }
        let row = &self.dependencies[output];
        assert(row@ == self@.dependencies[output as int]);
        let mut low: usize = 0;
        let mut high: usize = row.len();
        while low < high
            invariant
                row@ == self@.dependencies[output as int],
                strictly_sorted(row@),
                low <= high <= row@.len(),
                forall|i: int| 0 <= i < low ==> #[trigger] row@[i] < input,
                forall|i: int| high <= i < row@.len() ==> #[trigger] row@[i] > input,
            decreases high - low,
        {
            let middle = low + (high - low) / 2;
            if row[middle] == input {
                assert(row@[middle as int] == input);
                return true;
            } else if row[middle] < input {
                low = middle + 1;
            } else {
                high = middle;
            }
        }
        proof {
            if row@.contains(input) {
                let i = choose|i: int| 0 <= i < row@.len() && row@[i] == input;
                assert(row@[i] == input);
            }
        }
        false
    }
}

impl Plan {
    /// Copies the value of each source of the node at `position` into the
    /// node's input slots, leaving every other slot unchanged.
    pub fn gather<T: Copy>(&self, position: usize, values: &mut Vec<T>)
        requires
            position < self@.nodes.len(),
            old(values)@.len() == self@.slots,
        ensures
            final(values)@ == gathered(old(values)@, self@.nodes[position as int]),
    {
        proof {
            use_type_invariant(self);
        }
        let node = &self.nodes[position];
        let ghost start = values@;
        assert(node_fits(self@.nodes[position as int], self@.slots));
        let mut i: usize = 0;
        while i < node.sources.len()
            invariant
                node_fits(*node, self@.slots),
                values@.len() == start.len(),
                start.len() == self@.slots,
                i <= node.sources@.len(),
                forall|s: int|
                    0 <= s < values@.len() ==> #[trigger] values@[s] == if node.inputs.start <= s
                        < node.inputs.start + i {
                        start[node.sources@[s - node.inputs.start] as int]
                    } else {
                        start[s]
                    },
            decreases node.sources@.len() - i,
        {
            let source = node.sources[i];
            assert(!(node.inputs.start <= source < node.inputs.end));
            let value = values[source];
            values.set(node.inputs.start + i, value);
            i = i + 1;
        }
        assert(values@ =~= gathered(start, *node));
    }

    /// The values of the node's sources at `position`, in input order: the
    /// seeds of a forward product.
    pub fn node_inputs<T: Copy>(&self, position: usize, values: &[T]) -> (inputs: Vec<T>)
        requires
            position < self@.nodes.len(),
            values@.len() == self@.slots,
        ensures
            inputs@.len() == self@.nodes[position as int].sources@.len(),
            forall|i: int|
                0 <= i < inputs@.len() ==> #[trigger] inputs@[i]
                    == values@[self@.nodes[position as int].sources@[i] as int],
    {
        proof {
            use_type_invariant(self);
        }
        let node = &self.nodes[position];
        assert(node_fits(self@.nodes[position as int], self@.slots));
        let mut inputs: Vec<T> = Vec::with_capacity(node.sources.len());
        let mut i: usize = 0;
        while i < node.sources.len()
            invariant
                node_fits(*node, self@.slots),
                values@.len() == self@.slots,
                i <= node.sources@.len(),
                inputs@.len() == i,
                forall|k: int| 0 <= k < i ==> #[trigger] inputs@[k] == values@[node.sources@[k] as int],
            decreases node.sources@.len() - i,
        {
            inputs.push(values[node.sources[i]]);
            i = i + 1;
        }
        inputs
    }

    /// The values in the output slots of the node at `position`: the seeds
    /// of a reverse product.
    pub fn node_outputs<T: Copy>(&self, position: usize, values: &[T]) -> (outputs: Vec<T>)
        requires
            position < self@.nodes.len(),
            values@.len() == self@.slots,
        ensures
            outputs@ == values@.subrange(
                self@.nodes[position as int].outputs.start as int,
                self@.nodes[position as int].outputs.end as int,
            ),
    {
        proof {
            use_type_invariant(self);
        }
        let node = &self.nodes[position];
        assert(node_fits(self@.nodes[position as int], self@.slots));
        let mut outputs: Vec<T> = Vec::with_capacity(node.outputs.end - node.outputs.start);
        let mut s: usize = node.outputs.start;
        while s < node.outputs.end
            invariant
                node_fits(*node, self@.slots),
                values@.len() == self@.slots,
                node.outputs.start <= s <= node.outputs.end,
                outputs@ == values@.subrange(node.outputs.start as int, s as int),
            decreases node.outputs.end - s,
        {
            outputs.push(values[s]);
            s = s + 1;
            assert(outputs@ =~= values@.subrange(node.outputs.start as int, s as int));
        }
        outputs
    }

    /// Writes `products` into the output slots of the node at `position`,
    /// leaving every other slot unchanged: the results of a forward product.
    pub fn store_outputs<T: Copy>(&self, position: usize, values: &mut Vec<T>, products: &[T])
        requires
            position < self@.nodes.len(),
            old(values)@.len() == self@.slots,
            products@.len() == self@.nodes[position as int].outputs.end
                - self@.nodes[position as int].outputs.start,
        ensures
            final(values)@.len() == old(values)@.len(),
            forall|s: int|
                0 <= s < old(values)@.len() ==> #[trigger] final(values)@[s] == if self@.nodes[position as int].outputs.start
                    <= s < self@.nodes[position as int].outputs.end {
                    products@[s - self@.nodes[position as int].outputs.start]
                } else {
                    old(values)@[s]
                },
    {
        proof {
            use_type_invariant(self);
        }
        let node = &self.nodes[position];
        assert(node_fits(self@.nodes[position as int], self@.slots));
        let ghost start = values@;
        let mut e: usize = 0;
        while e < products.len()
            invariant
                node_fits(*node, self@.slots),
                products@.len() == node.outputs.end - node.outputs.start,
                values@.len() == start.len(),
                start.len() == self@.slots,
                e <= products@.len(),
                forall|s: int|
                    0 <= s < values@.len() ==> #[trigger] values@[s] == if node.outputs.start <= s
                        < node.outputs.start + e {
                        products@[s - node.outputs.start]
                    } else {
                        start[s]
                    },
            decreases products@.len() - e,
        {
            values.set(node.outputs.start + e, products[e]);
            e = e + 1;
        }
    }

    /// The values of the published outputs, in publication order.
    pub fn publish<T: Copy>(&self, values: &[T]) -> (published: Vec<T>)
        requires
            values@.len() == self@.slots,
        ensures
            published@.len() == self@.outputs.len(),
            forall|j: int|
                0 <= j < published@.len() ==> #[trigger] published@[j] == values@[self@.outputs[j] as int],
    {
        proof {
            use_type_invariant(self);
        }
        let mut published: Vec<T> = Vec::with_capacity(self.outputs.len());
        let mut j: usize = 0;
        while j < self.outputs.len()
            invariant
                well_wired(self@),
                values@.len() == self@.slots,
                j <= self@.outputs.len(),
                published@.len() == j,
                forall|k: int| 0 <= k < j ==> #[trigger] published@[k] == values@[self@.outputs[k] as int],
            decreases self@.outputs.len() - j,
        {
            published.push(values[self.outputs[j]]);
            j = j + 1;
        }
        published
    }

    /// Number of plan inputs.
    pub fn inputs(&self) -> (inputs: usize)
        ensures
            inputs == self@.inputs,
    {
        self.inputs
    }
}

} // verus!
