//! Conservative input dependencies of published outputs.

use vstd::prelude::*;

use crate::plan::PlanNode;

verus! {

/// Entries increase strictly from left to right.
pub open spec fn strictly_sorted(s: Seq<usize>) -> bool {
    forall|i: int, j: int| 0 <= i < j < s.len() ==> s[i] < s[j]
}

/// Union of two strictly increasing lists, itself strictly increasing.
fn merge_sorted(a: &Vec<usize>, b: &Vec<usize>) -> (out: Vec<usize>)
    requires
        strictly_sorted(a@),
        strictly_sorted(b@),
    ensures
        strictly_sorted(out@),
        forall|x: usize| #[trigger] out@.contains(x) <==> a@.contains(x) || b@.contains(x),
{
    let mut out: Vec<usize> = Vec::new();
    let mut i: usize = 0;
    let mut j: usize = 0;
    while i < a.len() || j < b.len()
        invariant
            strictly_sorted(a@),
            strictly_sorted(b@),
            strictly_sorted(out@),
            i <= a@.len(),
            j <= b@.len(),
            forall|x: usize|
                #[trigger] out@.contains(x) <==> a@.subrange(0, i as int).contains(x) || b@.subrange(
                    0,
                    j as int,
                ).contains(x),
            out@.len() > 0 && i < a@.len() ==> out@.last() < a@[i as int],
            out@.len() > 0 && j < b@.len() ==> out@.last() < b@[j as int],
        decreases a@.len() + b@.len() - i - j,
    {
        let ghost before = out@;
        let ghost (i0, j0) = (i as int, j as int);
        let x: usize;
        if j >= b.len() || (i < a.len() && a[i] < b[j]) {
            x = a[i];
            i = i + 1;
        } else if i >= a.len() || b[j] < a[i] {
            x = b[j];
            j = j + 1;
        } else {
            x = a[i];
            i = i + 1;
            j = j + 1;
        }
        out.push(x);
        proof {
            assert forall|y: usize| #[trigger] out@.contains(y) <==> a@.subrange(0, i as int).contains(
                y,
            ) || b@.subrange(0, j as int).contains(y) by {
                if out@.contains(y) && y != x {
                    let k = choose|k: int| 0 <= k < out@.len() && out@[k] == y;
                    assert(before[k] == y);
                    assert(before.contains(y));
                    if a@.subrange(0, i0).contains(y) {
                        let l = choose|l: int| 0 <= l < i0 && a@.subrange(0, i0)[l] == y;
                        assert(a@.subrange(0, i as int)[l] == y);
                    } else {
                        let l = choose|l: int| 0 <= l < j0 && b@.subrange(0, j0)[l] == y;
                        assert(b@.subrange(0, j as int)[l] == y);
                    }
                }
                if y == x {
                    assert(out@[out@.len() - 1] == x);
                    if i as int > i0 {
                        assert(a@.subrange(0, i as int)[i0] == x);
                    } else {
                        assert(b@.subrange(0, j as int)[j0] == x);
                    }
                }
                if a@.subrange(0, i as int).contains(y) && y != x {
                    let l = choose|l: int| 0 <= l < i && a@.subrange(0, i as int)[l] == y;
                    if l < i0 {
                        assert(a@.subrange(0, i0)[l] == y);
                        assert(before.contains(y));
                        let k = choose|k: int| 0 <= k < before.len() && before[k] == y;
                        assert(out@[k] == y);
                    }
                }
                if b@.subrange(0, j as int).contains(y) && y != x {
                    let l = choose|l: int| 0 <= l < j && b@.subrange(0, j as int)[l] == y;
                    if l < j0 {
                        assert(b@.subrange(0, j0)[l] == y);
                        assert(before.contains(y));
                        let k = choose|k: int| 0 <= k < before.len() && before[k] == y;
                        assert(out@[k] == y);
                    }
                }
            }
        }
    }
    proof {
        assert(a@.subrange(0, a@.len() as int) =~= a@);
        assert(b@.subrange(0, b@.len() as int) =~= b@);
    }
    out
}

/// Before any node runs, each plan input depends on itself and every other
/// slot on nothing.
pub open spec fn initial_dependencies(inputs: usize, slots: usize) -> Seq<Set<usize>> {
    Seq::new(
        slots as nat,
        |s: int|
            if s < inputs {
                Set::empty().insert(s as usize)
            } else {
                Set::empty()
            },
    )
}

/// Plan inputs reaching one operator output through the operator inputs it
/// depends on (`table[i]`).
pub open spec fn output_reach(state: Seq<Set<usize>>, sources: Seq<usize>, table: Seq<bool>) -> Set<
    usize,
> {
    Set::new(
        |x: usize|
            exists|i: int|
                0 <= i < sources.len() && table[i] && #[trigger] state[sources[i] as int].contains(
                    x,
                ),
    )
}

/// Dependencies after running one node: its output slots take the union of
/// the dependencies of the inputs they depend on.
pub open spec fn after_node(state: Seq<Set<usize>>, node: PlanNode, table: Seq<Seq<bool>>) -> Seq<
    Set<usize>,
> {
    Seq::new(
        state.len(),
        |s: int|
            if node.outputs.start <= s < node.outputs.end {
                output_reach(state, node.sources@, table[s - node.outputs.start])
            } else {
                state[s]
            },
    )
}

/// Views of per-node dependency tables, `tables[k][output][input]`.
pub open spec fn tables_view(tables: Seq<Vec<Vec<bool>>>) -> Seq<Seq<Seq<bool>>> {
    Seq::new(tables.len(), |k: int| Seq::new(tables[k]@.len(), |o: int| tables[k]@[o]@))
}

/// Dependencies of every slot after running the first `k` nodes in order.
pub open spec fn dependencies_after(
    inputs: usize,
    slots: usize,
    nodes: Seq<PlanNode>,
    tables: Seq<Seq<Seq<bool>>>,
    k: int,
) -> Seq<Set<usize>>
    decreases k,
{
    if k <= 0 {
        initial_dependencies(inputs, slots)
    } else {
        after_node(
            dependencies_after(inputs, slots, nodes, tables, k - 1),
            nodes[k - 1],
            tables[nodes[k - 1].index as int],
        )
    }
}

pub(crate) proof fn lemma_dependencies_len(
    inputs: usize,
    slots: usize,
    nodes: Seq<PlanNode>,
    tables: Seq<Seq<Seq<bool>>>,
    k: int,
)
    ensures
        dependencies_after(inputs, slots, nodes, tables, k).len() == slots,
    decreases k,
{
    if k > 0 {
        lemma_dependencies_len(inputs, slots, nodes, tables, k - 1);
    }
}

/// The nodes fit the slot layout and their dependency tables: outputs and
/// sources lie inside the slots, no node reads its own outputs, and each
/// table has one row per output and one entry per input.
pub open spec fn dependency_inputs_ok(
    inputs: usize,
    slots: usize,
    nodes: Seq<PlanNode>,
    tables: Seq<Seq<Seq<bool>>>,
) -> bool {
    &&& inputs <= slots
    &&& forall|p: int|
        #![trigger nodes[p]]
        0 <= p < nodes.len() ==> {
            let node = nodes[p];
            &&& node.outputs.start <= node.outputs.end <= slots
            &&& node.index < tables.len()
            &&& tables[node.index as int].len() == node.outputs.end - node.outputs.start
            &&& forall|o: int|
                0 <= o < tables[node.index as int].len() ==> #[trigger] tables[node.index as int][o].len()
                    == node.sources@.len()
            &&& forall|i: int|
                0 <= i < node.sources@.len() ==> #[trigger] node.sources@[i] < slots && !(
                node.outputs.start <= node.sources@[i] < node.outputs.end)
        }
}

/// Each slot's list holds exactly the members of its dependency set, in
/// increasing order.
pub open spec fn lists_match(lists: Seq<Vec<usize>>, sets: Seq<Set<usize>>) -> bool {
    &&& lists.len() == sets.len()
    &&& forall|s: int| 0 <= s < lists.len() ==> strictly_sorted(#[trigger] lists[s]@)
    &&& forall|s: int, x: usize|
        0 <= s < lists.len() ==> (#[trigger] lists[s]@.contains(x) <==> sets[s].contains(x))
}

/// Sorted input indices that may affect each published output slot.
pub(crate) fn output_dependencies(
    inputs: usize,
    slots: usize,
    nodes: &Vec<PlanNode>,
    outputs: &Vec<usize>,
    depends: &Vec<Vec<Vec<bool>>>,
) -> (result: Vec<Vec<usize>>)
    requires
        dependency_inputs_ok(inputs, slots, nodes@, tables_view(depends@)),
        forall|j: int| 0 <= j < outputs@.len() ==> #[trigger] outputs@[j] < slots,
    ensures
        result@.len() == outputs@.len(),
        forall|j: int| 0 <= j < outputs@.len() ==> strictly_sorted(#[trigger] result@[j]@),
        forall|j: int, x: usize|
            0 <= j < outputs@.len() ==> (#[trigger] result@[j]@.contains(x) <==> dependencies_after(
                inputs,
                slots,
                nodes@,
                tables_view(depends@),
                nodes@.len() as int,
            )[outputs@[j] as int].contains(x)),
{
    let ghost tables = tables_view(depends@);
    let mut deps: Vec<Vec<usize>> = Vec::with_capacity(slots);
    let mut s: usize = 0;
    while s < slots
        invariant
            s <= slots,
            deps@.len() == s,
            forall|t: int| 0 <= t < s ==> strictly_sorted(#[trigger] deps@[t]@),
            forall|t: int, x: usize|
                0 <= t < s ==> (#[trigger] deps@[t]@.contains(x) <==> initial_dependencies(
                    inputs,
                    slots,
                )[t].contains(x)),
        decreases slots - s,
    {
        if s < inputs {
            let single = vec![s];
            assert(single@[0] == s);
            deps.push(single);
        } else {
            deps.push(Vec::new());
        }
        s = s + 1;
    }
    let mut p: usize = 0;
    while p < nodes.len()
        invariant
            dependency_inputs_ok(inputs, slots, nodes@, tables),
            tables == tables_view(depends@),
            p <= nodes@.len(),
            lists_match(deps@, dependencies_after(inputs, slots, nodes@, tables, p as int)),
        decreases nodes@.len() - p,
    {
        let node = &nodes[p];
        let table = &depends[node.index];
        let ghost prev = dependencies_after(inputs, slots, nodes@, tables, p as int);
        let ghost next = dependencies_after(inputs, slots, nodes@, tables, p as int + 1);
        proof {
            lemma_dependencies_len(inputs, slots, nodes@, tables, p as int);
            assert(Seq::new(
                slots as nat,
                |t: int|
                    if node.outputs.start <= t < node.outputs.start + 0 {
                        next[t]
                    } else {
                        prev[t]
                    },
            ) =~= prev);
        }
        assert(next == after_node(prev, nodes@[p as int], tables[node.index as int]));
        let count = node.outputs.end - node.outputs.start;
        let mut o: usize = 0;
        while o < count
            invariant
                dependency_inputs_ok(inputs, slots, nodes@, tables),
                tables == tables_view(depends@),
                p < nodes@.len(),
                *node == nodes@[p as int],
                table@.len() == count,
                tables[node.index as int] == Seq::new(table@.len(), |o: int| table@[o]@),
                count == node.outputs.end - node.outputs.start,
                prev.len() == slots,
                next == after_node(prev, nodes@[p as int], tables[node.index as int]),
                o <= count,
                lists_match(
                    deps@,
                    Seq::new(
                        slots as nat,
                        |t: int|
                            if node.outputs.start <= t < node.outputs.start + o {
                                next[t]
                            } else {
                                prev[t]
                            },
                    ),
                ),
            decreases count - o,
        {
            let row = &table[o];
            let ghost row_view = tables[node.index as int][o as int];
            assert(row@ == row_view);
            let mut entries: Vec<usize> = Vec::new();
            let mut i: usize = 0;
            while i < node.sources.len()
                invariant
                    dependency_inputs_ok(inputs, slots, nodes@, tables),
                    p < nodes@.len(),
                    *node == nodes@[p as int],
                    o < count,
                    count == node.outputs.end - node.outputs.start,
                    row@ == row_view,
                    row_view.len() == node.sources@.len(),
                    prev.len() == slots,
                    i <= node.sources@.len(),
                    strictly_sorted(entries@),
                    forall|x: usize|
                        #[trigger] entries@.contains(x) <==> exists|k: int|
                            0 <= k < i && row_view[k] && #[trigger] prev[node.sources@[k] as int].contains(
                                x,
                            ),
                    lists_match(
                        deps@,
                        Seq::new(
                            slots as nat,
                            |t: int|
                                if node.outputs.start <= t < node.outputs.start + o {
                                    next[t]
                                } else {
                                    prev[t]
                                },
                        ),
                    ),
                decreases node.sources@.len() - i,
            {
                if row[i] {
                    let source = node.sources[i];
                    assert(source < slots);
                    assert(!(node.outputs.start <= source < node.outputs.end));
                    let merged = merge_sorted(&entries, &deps[source]);
                    proof {
                        assert forall|x: usize| #[trigger] merged@.contains(x) <==> exists|k: int|
                            0 <= k < i + 1 && row_view[k] && #[trigger] prev[node.sources@[k] as int].contains(
                                x,
                            ) by {
                            if prev[source as int].contains(x) {
                                assert(row_view[i as int] && prev[node.sources@[i as int] as int].contains(x));
                            }
                        }
                    }
                    entries = merged;
                }
                i = i + 1;
            }
            let ghost before = deps@;
            let slot = node.outputs.start + o;
            deps.set(slot, entries);
            proof {
                assert forall|x: usize| entries@.contains(x) <==> next[slot as int].contains(x) by {
                    assert(next[slot as int] == output_reach(prev, node.sources@, row_view));
                }
            }
            o = o + 1;
        }
        proof {
            assert forall|t: int| 0 <= t < slots implies (if node.outputs.start <= t
                < node.outputs.start + o {
                next[t]
            } else {
                prev[t]
            }) == next[t] by {}
        }
        p = p + 1;
    }
    proof {
        lemma_dependencies_len(inputs, slots, nodes@, tables, nodes@.len() as int);
    }
    let mut result: Vec<Vec<usize>> = Vec::with_capacity(outputs.len());
    let mut j: usize = 0;
    while j < outputs.len()
        invariant
            j <= outputs@.len(),
            result@.len() == j,
            forall|k: int| 0 <= k < outputs@.len() ==> #[trigger] outputs@[k] < slots,
            tables == tables_view(depends@),
            deps@.len() == slots,
            lists_match(
                deps@,
                dependencies_after(inputs, slots, nodes@, tables, nodes@.len() as int),
            ),
            forall|k: int| 0 <= k < j ==> #[trigger] result@[k]@ == deps@[outputs@[k] as int]@,
        decreases outputs@.len() - j,
    {
        let copy = deps[outputs[j]].clone();
        assert(copy@ =~= deps@[outputs@[j as int] as int]@);
        result.push(copy);
        j = j + 1;
    }
    proof {
        assert forall|k: int| 0 <= k < outputs@.len() implies strictly_sorted(
            #[trigger] result@[k]@,
        ) by {
            assert(result@[k]@ == deps@[outputs@[k] as int]@);
        }
        assert forall|k: int, x: usize| 0 <= k < outputs@.len() implies (
        #[trigger] result@[k]@.contains(x) <==> dependencies_after(
            inputs,
            slots,
            nodes@,
            tables,
            nodes@.len() as int,
        )[outputs@[k] as int].contains(x)) by {
            assert(result@[k]@ == deps@[outputs@[k] as int]@);
            assert(deps@[outputs@[k] as int]@.contains(x) <==> dependencies_after(
                inputs,
                slots,
                nodes@,
                tables,
                nodes@.len() as int,
            )[outputs@[k] as int].contains(x));
        }
    }
    result
}

} // verus!
