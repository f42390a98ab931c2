//! Deterministic execution order of operator nodes (Kahn's algorithm).

use std::collections::VecDeque;

use vstd::prelude::*;

use crate::error::Error;
use crate::perm::is_permutation;

verus! {

/// Number of entries of `s` equal to `v`.
pub open spec fn count_of(s: Seq<usize>, v: usize) -> nat
    decreases s.len(),
{
    if s.len() == 0 {
        0
    } else {
        (if s[0] == v {
            1nat
        } else {
            0nat
        }) + count_of(s.drop_first(), v)
    }
}

/// Consumer entries naming `v` among nodes `0..m` that are not in `done`.
pub open spec fn pending_in(consumers: Seq<Seq<usize>>, done: Set<int>, v: usize, m: int) -> nat
    decreases m,
{
    if m <= 0 {
        0
    } else {
        pending_in(consumers, done, v, m - 1) + (if done.contains(m - 1) {
            0nat
        } else {
            count_of(consumers[m - 1], v)
        })
    }
}

/// Number of edges (with multiplicity) that end at node `v`.
pub open spec fn in_degree(consumers: Seq<Seq<usize>>, v: usize) -> nat {
    pending_in(consumers, Set::empty(), v, consumers.len() as int)
}

/// Node `u` lists node `v` among its consumers.
pub open spec fn has_edge(consumers: Seq<Seq<usize>>, u: int, v: int) -> bool {
    0 <= u < consumers.len() && consumers[u].contains(v as usize)
}

/// Every consumer entry names a node of the graph.
pub open spec fn valid_consumers(consumers: Seq<Seq<usize>>) -> bool {
    forall|u: int, j: int|
        0 <= u < consumers.len() && 0 <= j < consumers[u].len() ==> #[trigger] consumers[u][j]
            < consumers.len()
}

/// Every edge runs from an earlier to a later position of `order`.
pub open spec fn is_topological(order: Seq<usize>, consumers: Seq<Seq<usize>>) -> bool {
    forall|p: int, q: int|
        0 <= p < order.len() && 0 <= q < order.len() && #[trigger] has_edge(
            consumers,
            order[p] as int,
            order[q] as int,
        ) ==> p < q
}

/// The views of a slice of vectors.
pub open spec fn views(lists: Seq<Vec<usize>>) -> Seq<Seq<usize>> {
    Seq::new(lists.len(), |i: int| lists[i]@)
}

proof fn lemma_count_skip(s: Seq<usize>, j: int, v: usize)
    requires
        0 <= j < s.len(),
    ensures
        count_of(s.skip(j), v) == (if s[j] == v {
            1nat
        } else {
            0nat
        }) + count_of(s.skip(j + 1), v),
{
    assert(s.skip(j).drop_first() =~= s.skip(j + 1));
}

pub proof fn lemma_count_positive(s: Seq<usize>, v: usize)
    ensures
        count_of(s, v) > 0 <==> s.contains(v),
    decreases s.len(),
{
    if s.len() > 0 {
        lemma_count_positive(s.drop_first(), v);
        if s.drop_first().contains(v) {
            let k = choose|k: int| 0 <= k < s.drop_first().len() && s.drop_first()[k] == v;
            assert(s[k + 1] == v);
        }
        if s.contains(v) && s[0] != v {
            let k = choose|k: int| 0 <= k < s.len() && s[k] == v;
            assert(s.drop_first()[k - 1] == v);
        }
    }
}

proof fn lemma_pending_remove(
    consumers: Seq<Seq<usize>>,
    done: Set<int>,
    u: int,
    v: usize,
    m: int,
)
    requires
        0 <= u < m,
        !done.contains(u),
    ensures
        pending_in(consumers, done.insert(u), v, m) + count_of(consumers[u], v) == pending_in(
            consumers,
            done,
            v,
            m,
        ),
    decreases m,
{
    if m - 1 > u {
        lemma_pending_remove(consumers, done, u, v, m - 1);
    } else {
        lemma_pending_same(consumers, done, done.insert(u), v, m - 1);
    }
}

proof fn lemma_pending_same(
    consumers: Seq<Seq<usize>>,
    a: Set<int>,
    b: Set<int>,
    v: usize,
    m: int,
)
    requires
        forall|x: int| 0 <= x < m ==> (a.contains(x) <==> b.contains(x)),
    ensures
        pending_in(consumers, a, v, m) == pending_in(consumers, b, v, m),
    decreases m,
{
    if m > 0 {
        lemma_pending_same(consumers, a, b, v, m - 1);
    }
}

proof fn lemma_pending_covers(
    consumers: Seq<Seq<usize>>,
    done: Set<int>,
    v: usize,
    m: int,
    x: int,
)
    requires
        0 <= x < m,
        !done.contains(x),
    ensures
        pending_in(consumers, done, v, m) >= count_of(consumers[x], v),
    decreases m,
{
    if m - 1 > x {
        lemma_pending_covers(consumers, done, v, m - 1, x);
    }
}

proof fn lemma_pending_witness(consumers: Seq<Seq<usize>>, done: Set<int>, v: usize, m: int) -> (x:
    int)
    requires
        pending_in(consumers, done, v, m) > 0,
    ensures
        0 <= x < m,
        !done.contains(x),
        count_of(consumers[x], v) > 0,
    decreases m,
{
    if pending_in(consumers, done, v, m - 1) > 0 {
        lemma_pending_witness(consumers, done, v, m - 1)
    } else {
        m - 1
    }
}

/// Distinct indices below `n` number at most `n`, and exactly `n` only when
/// every index below `n` occurs.
pub proof fn lemma_distinct_bounded(s: Seq<usize>, n: nat)
    requires
        n <= usize::MAX,
        s.no_duplicates(),
        forall|i: int| 0 <= i < s.len() ==> #[trigger] s[i] < n,
    ensures
        s.len() <= n,
        s.len() == n <==> forall|v: int| 0 <= v < n ==> #[trigger] s.contains(v as usize),
{
    let t = s.map_values(|x: usize| x as int);
    assert(t.no_duplicates()) by {
        assert forall|i: int, j: int| 0 <= i < t.len() && 0 <= j < t.len() && i != j implies t[i]
            != t[j] by {
            assert(s[i] != s[j]);
        }
    }
    t.unique_seq_to_set();
    let range = vstd::set_lib::set_int_range(0, n as int);
    vstd::set_lib::lemma_int_range(0, n as int);
    assert(t.to_set().subset_of(range)) by {
        assert forall|x: int| t.to_set().contains(x) implies range.contains(x) by {
            assert(t.contains(x));
            let i = choose|i: int| 0 <= i < t.len() && t[i] == x;
            assert(s[i] < n);
        }
    }
    vstd::set_lib::lemma_len_subset(t.to_set(), range);
    if s.len() == n {
        vstd::set_lib::lemma_subset_equality(t.to_set(), range);
        assert forall|v: int| 0 <= v < n implies #[trigger] s.contains(v as usize) by {
            assert(range.contains(v));
            assert(t.to_set().contains(v));
            assert(t.contains(v));
            let i = choose|i: int| 0 <= i < t.len() && t[i] == v;
            assert(s[i] == v as usize);
        }
    }
    if forall|v: int| 0 <= v < n ==> #[trigger] s.contains(v as usize) {
        assert(range.subset_of(t.to_set())) by {
            assert forall|x: int| range.contains(x) implies t.to_set().contains(x) by {
                assert(s.contains(x as usize));
                let i = choose|i: int| 0 <= i < s.len() && s[i] == x as usize;
                assert(t[i] == x);
                assert(t.contains(x));
            }
        }
        vstd::set_lib::lemma_len_subset(range, t.to_set());
    }
}

/// Among the positions of `ord` holding an element of `rest`, there is a first one.
proof fn lemma_first_position(ord: Seq<usize>, rest: Set<int>, q0: int) -> (q: int)
    requires
        0 <= q0 < ord.len(),
        rest.contains(ord[q0] as int),
    ensures
        0 <= q <= q0,
        rest.contains(ord[q] as int),
        forall|p: int| 0 <= p < q ==> !rest.contains(#[trigger] ord[p] as int),
    decreases q0,
{
    if exists|p: int| 0 <= p < q0 && rest.contains(#[trigger] ord[p] as int) {
        let p = choose|p: int| 0 <= p < q0 && rest.contains(#[trigger] ord[p] as int);
        lemma_first_position(ord, rest, p)
    } else {
        q0
    }
}

/// A nonempty set of nodes in which every node has a predecessor inside the
/// set rules out every topological order.
proof fn lemma_no_topological_order(consumers: Seq<Seq<usize>>, rest: Set<int>, start: int)
    requires
        0 <= start < consumers.len(),
        rest.contains(start),
        forall|v: int|
            #![trigger rest.contains(v)]
            rest.contains(v) ==> 0 <= v < consumers.len() && exists|x: int|
                rest.contains(x) && #[trigger] has_edge(consumers, x, v),
    ensures
        forall|ord: Seq<usize>|
            is_permutation(ord) && ord.len() == consumers.len() ==> !is_topological(
                ord,
                consumers,
            ),
{
    assert forall|ord: Seq<usize>|
        is_permutation(ord) && ord.len() == consumers.len() implies !is_topological(
        ord,
        consumers,
    ) by {
        if is_topological(ord, consumers) {
            assert(ord.contains(start as usize));
            let q0 = choose|i: int| 0 <= i < ord.len() && ord[i] == start as usize;
            let q = lemma_first_position(ord, rest, q0);
            let v = ord[q] as int;
            let x = choose|x: int| rest.contains(x) && #[trigger] has_edge(consumers, x, v);
            assert(ord.contains(x as usize));
            let p = choose|p: int| 0 <= p < ord.len() && ord[p] == x as usize;
            assert(has_edge(consumers, ord[p] as int, ord[q] as int));
            assert(p < q);
            assert(!rest.contains(ord[p] as int));
        }
    }
}

/// Degrees as integers, so that a spec decrement never wraps.
pub open spec fn degrees(indegree: Seq<usize>) -> Seq<int> {
    Seq::new(indegree.len(), |w: int| indegree[w] as int)
}

/// Nodes among `0..m` without incoming edges, in increasing order.
pub open spec fn initial_ready(indegree: Seq<usize>, m: int) -> Seq<usize>
    decreases m,
{
    if m <= 0 {
        Seq::empty()
    } else if indegree[m - 1] == 0 {
        initial_ready(indegree, m - 1).push((m - 1) as usize)
    } else {
        initial_ready(indegree, m - 1)
    }
}

/// Degrees and queue after releasing the first `j` consumers of `list`: each
/// one loses an incoming edge and joins the back of the queue when it has
/// none left.
pub open spec fn release(degree: Seq<int>, ready: Seq<usize>, list: Seq<usize>, j: int) -> (
    Seq<int>,
    Seq<usize>,
)
    decreases j,
{
    if j <= 0 {
        (degree, ready)
    } else {
        let (d, r) = release(degree, ready, list, j - 1);
        let c = list[j - 1];
        let d2 = d.update(c as int, d[c as int] - 1);
        if d2[c as int] == 0 {
            (d2, r.push(c))
        } else {
            (d2, r)
        }
    }
}

/// Queue, degrees and order after `steps` rounds of Kahn's algorithm with a
/// first-in first-out queue: each round takes the front of the queue,
/// appends it to the order and releases its consumers in list order.
pub open spec fn kahn_state(consumers: Seq<Seq<usize>>, indegree: Seq<usize>, steps: nat) -> (
    Seq<usize>,
    Seq<int>,
    Seq<usize>,
)
    decreases steps,
{
    if steps == 0 {
        (initial_ready(indegree, consumers.len() as int), degrees(indegree), Seq::empty())
    } else {
        let (ready, degree, order) = kahn_state(consumers, indegree, (steps - 1) as nat);
        if ready.len() == 0 {
            (ready, degree, order)
        } else {
            let u = ready[0];
            let (d, r) = release(
                degree,
                ready.drop_first(),
                consumers[u as int],
                consumers[u as int].len() as int,
            );
            (r, d, order.push(u))
        }
    }
}

/// The order in which Kahn's algorithm with a first-in first-out queue,
/// seeded in increasing node order, runs the nodes.
pub open spec fn kahn_order(consumers: Seq<Seq<usize>>, indegree: Seq<usize>) -> Seq<usize> {
    kahn_state(consumers, indegree, consumers.len()).2
}

proof fn lemma_kahn_stable(consumers: Seq<Seq<usize>>, indegree: Seq<usize>, s: nat, t: nat)
    requires
        s <= t,
        kahn_state(consumers, indegree, s).0.len() == 0,
    ensures
        kahn_state(consumers, indegree, t) == kahn_state(consumers, indegree, s),
    decreases t - s,
{
    if s < t {
        lemma_kahn_stable(consumers, indegree, s, (t - 1) as nat);
    }
}

/// Orders nodes so that every consumer runs after the nodes it reads.
///
/// `consumers[u]` lists (with repetition) the nodes that read an output of
/// node `u`, and `indegree[v]` counts those entries naming `v`. Returns a
/// permutation of all nodes in which every edge runs forward, or
/// [`Error::Cycle`] exactly when no such order exists.
pub fn execution_order(consumers: &[Vec<usize>], indegree: Vec<usize>) -> (result: Result<
    Vec<usize>,
    Error,
>)
    requires
        valid_consumers(views(consumers@)),
        indegree@.len() == consumers@.len(),
        forall|v: int|
            0 <= v < consumers@.len() ==> #[trigger] indegree@[v] == in_degree(
                views(consumers@),
                v as usize,
            ),
    ensures
        match result {
            Ok(order) => {
                &&& is_permutation(order@)
                &&& order@.len() == consumers@.len()
                &&& is_topological(order@, views(consumers@))
                &&& order@ == kahn_order(views(consumers@), indegree@)
            },
            Err(e) => {
                &&& e == Error::Cycle
                &&& forall|ord: Seq<usize>|
                    is_permutation(ord) && ord.len() == consumers@.len() ==> !is_topological(
                        ord,
                        views(consumers@),
                    )
            },
        },
{
    let ghost cs = views(consumers@);
    let ghost initial = indegree@;
    let n = consumers.len();
    let mut indegree = indegree;
    let mut ready: VecDeque<usize> = VecDeque::new();
    let mut v: usize = 0;
    while v < n
        invariant
            n == consumers@.len(),
            indegree@.len() == n,
            indegree@ == initial,
            ready@ == initial_ready(initial, v as int),
            v <= n,
            forall|k: int| 0 <= k < ready@.len() ==> #[trigger] ready@[k] < v,
            forall|k: int, l: int| 0 <= k < l < ready@.len() ==> ready@[k] < ready@[l],
            forall|k: int| 0 <= k < ready@.len() ==> indegree@[#[trigger] ready@[k] as int] == 0,
            forall|w: int| 0 <= w < v && indegree@[w] == 0 ==> ready@.contains(w as usize),
        decreases n - v,
    {
        let ghost before = ready@;
        if indegree[v] == 0 {
            ready.push_back(v);
            assert(ready@.last() == v);
        }
        proof {
            assert forall|w: int| 0 <= w < v + 1 && indegree@[w] == 0 implies ready@.contains(
                w as usize,
            ) by {
                if w < v {
                    let k = choose|k: int| 0 <= k < before.len() && before[k] == w as usize;
                    assert(ready@[k] == w as usize);
                } else {
                    assert(ready@[ready@.len() - 1] == w as usize);
                }
            }
        }
        v = v + 1;
    }
    let mut order: Vec<usize> = Vec::with_capacity(n);
    let ghost mut done: Set<int> = Set::empty();
    assert(degrees(indegree@) =~= degrees(initial));
    proof {
        assert forall|w: int| 0 <= w < n implies #[trigger] indegree@[w] == pending_in(
            cs,
            done,
            w as usize,
            n as int,
        ) by {}
        assert(ready@.no_duplicates()) by {
            assert forall|k: int, l: int|
                0 <= k < ready@.len() && 0 <= l < ready@.len() && k != l implies ready@[k]
                != ready@[l] by {
                if k < l {
                    assert(ready@[k] < ready@[l]);
                } else {
                    assert(ready@[l] < ready@[k]);
                }
            }
        }
    }
    loop
        invariant
            n == consumers@.len(),
            cs == views(consumers@),
            valid_consumers(cs),
            indegree@.len() == n,
            kahn_state(cs, initial, order@.len() as nat).0 == ready@,
            kahn_state(cs, initial, order@.len() as nat).1 == degrees(indegree@),
            kahn_state(cs, initial, order@.len() as nat).2 == order@,
            order@.no_duplicates(),
            forall|i: int| 0 <= i < order@.len() ==> #[trigger] order@[i] < n,
            forall|x: int| #[trigger]
                done.contains(x) <==> (0 <= x < n && order@.contains(x as usize)),
            forall|w: int|
                0 <= w < n ==> #[trigger] indegree@[w] == pending_in(cs, done, w as usize, n as int),
            ready@.no_duplicates(),
            forall|k: int|
                0 <= k < ready@.len() ==> #[trigger] ready@[k] < n && !done.contains(
                    ready@[k] as int,
                ) && indegree@[ready@[k] as int] == 0,
            forall|w: int|
                0 <= w < n && !done.contains(w) && indegree@[w] == 0 ==> #[trigger] ready@.contains(
                    w as usize,
                ),
            forall|w: int, x: int|
                #![trigger done.contains(w), cs[x]]
                done.contains(w) && 0 <= x < n && !done.contains(x) ==> count_of(cs[x], w as usize)
                    == 0,
            forall|q: int, u: int|
                0 <= q < order@.len() && #[trigger] has_edge(cs, u, order@[q] as int) ==> exists|
                    p: int,
                | 0 <= p < q && #[trigger] order@[p] == u,
        ensures
            ready@.len() == 0,
        decreases n - order@.len(),
    {
        proof {
            lemma_distinct_bounded(order@, n as nat);
        }
        let ghost head = ready@;
        let next = ready.pop_front();
        match next {
            None => {
                break;
            },
            Some(u) => {
                let ghost old_done = done;
                let ghost old_order = order@;
                let ghost old_ready = head;
                assert(!old_done.contains(u as int));
                assert(pending_in(cs, old_done, u, n as int) == 0);
                order.push(u);
                proof {
                    done = done.insert(u as int);
                    assert forall|x: int| #[trigger]
                        done.contains(x) <==> (0 <= x < n && order@.contains(x as usize)) by {
                        if done.contains(x) && x != u as int {
                            assert(old_order.contains(x as usize));
                            let i = choose|i: int| 0 <= i < old_order.len() && old_order[i] == x as usize;
                            assert(order@[i] == x as usize);
                        }
                        if x == u as int {
                            assert(order@[order@.len() - 1] == u);
                        }
                        if 0 <= x < n && order@.contains(x as usize) && x != u as int {
                            let i = choose|i: int| 0 <= i < order@.len() && order@[i] == x as usize;
                            assert(old_order[i] == x as usize);
                        }
                    }
                    assert(order@.no_duplicates()) by {
                        assert forall|i: int, j: int|
                            0 <= i < order@.len() && 0 <= j < order@.len() && i != j implies order@[i]
                            != order@[j] by {
                            if i < old_order.len() && j < old_order.len() {
                                assert(old_order[i] != old_order[j]);
                            } else if i < old_order.len() {
                                assert(old_done.contains(old_order[i] as int));
                            } else {
                                assert(old_done.contains(old_order[j] as int));
                            }
                        }
                    }
                    assert forall|x: int| 0 <= x < n && !old_done.contains(x) implies count_of(
                        #[trigger] cs[x],
                        u,
                    ) == 0 by {
                        lemma_pending_covers(cs, old_done, u, n as int, x);
                    }
                    assert forall|q: int, w: int|
                        0 <= q < order@.len() && #[trigger] has_edge(cs, w, order@[q] as int) implies exists|
                        p: int,
                    | 0 <= p < q && #[trigger] order@[p] == w by {
                        if q < old_order.len() {
                            assert(order@[q] == old_order[q]);
                            let p = choose|p: int| 0 <= p < q && #[trigger] old_order[p] == w;
                            assert(order@[p] == w);
                        } else {
                            assert(order@[q] == u);
                            lemma_count_positive(cs[w], u);
                            if !old_done.contains(w) {
                                assert(count_of(cs[w], u) == 0);
                            }
                            assert(old_order.contains(w as usize));
                            let p = choose|p: int| 0 <= p < old_order.len() && old_order[p] == w as usize;
                            assert(order@[p] == w);
                        }
                    }
                    assert forall|w: int| 0 <= w < n implies #[trigger] indegree@[w] == pending_in(
                        cs,
                        done,
                        w as usize,
                        n as int,
                    ) + count_of(cs[u as int].skip(0), w as usize) by {
                        lemma_pending_remove(cs, old_done, u as int, w as usize, n as int);
                        assert(cs[u as int].skip(0) =~= cs[u as int]);
                    }
                    assert forall|w: int| done.contains(w) implies count_of(
                        #[trigger] cs[u as int],
                        w as usize,
                    ) == 0 by {
                        if w != u as int {
                            assert(old_done.contains(w));
                        }
                    }
                }
                proof {
                    assert(old_ready[0] == u);
                    assert forall|w: int|
                        0 <= w < n && !done.contains(w) && indegree@[w] == 0 implies #[trigger] ready@.contains(
                        w as usize,
                    ) by {
                        assert(!old_done.contains(w));
                        assert(old_ready.contains(w as usize));
                        let k = choose|k: int| 0 <= k < old_ready.len() && old_ready[k] == w as usize;
                        assert(k != 0);
                        assert(ready@[k - 1] == w as usize);
                    }
                }
                let list = &consumers[u];
                assert(list@ == cs[u as int]);
                let ghost start_degrees = degrees(indegree@);
                let ghost start_ready = ready@;
                assert(start_ready == old_ready.drop_first());
                let mut j: usize = 0;
                while j < list.len()
                    invariant
                        release(start_degrees, start_ready, list@, j as int).0 == degrees(indegree@),
                        release(start_degrees, start_ready, list@, j as int).1 == ready@,
                        n == consumers@.len(),
                        cs == views(consumers@),
                        valid_consumers(cs),
                        u < n,
                        list@ == cs[u as int],
                        j <= list@.len(),
                        indegree@.len() == n,
                        done.contains(u as int),
                        forall|w: int|
                            0 <= w < n ==> #[trigger] indegree@[w] == pending_in(
                                cs,
                                done,
                                w as usize,
                                n as int,
                            ) + count_of(list@.skip(j as int), w as usize),
                        forall|w: int| done.contains(w) ==> count_of(#[trigger] cs[u as int], w as usize) == 0,
                        ready@.no_duplicates(),
                        forall|k: int|
                            0 <= k < ready@.len() ==> #[trigger] ready@[k] < n && !done.contains(
                                ready@[k] as int,
                            ) && indegree@[ready@[k] as int] == 0,
                        forall|w: int|
                            0 <= w < n && !done.contains(w) && indegree@[w] == 0
                                ==> #[trigger] ready@.contains(w as usize),
                    decreases list@.len() - j,
                {
                    let c = list[j];
                    proof {
                        lemma_count_skip(list@, j as int, c);
                        assert(c < n);
                        lemma_count_positive(cs[u as int], c);
                        assert(cs[u as int].contains(c));
                        assert(!done.contains(c as int));
                        assert forall|w: int| 0 <= w < n && w != c as int implies #[trigger] count_of(
                            list@.skip(j as int),
                            w as usize,
                        ) == count_of(list@.skip(j as int + 1), w as usize) by {
                            lemma_count_skip(list@, j as int, w as usize);
                        }
                    }
                    let ghost before = ready@;
                    let ghost before_degrees = degrees(indegree@);
                    let degree = indegree[c] - 1;
                    indegree.set(c, degree);
                    if degree == 0 {
                        ready.push_back(c);
                    }
                    assert(degrees(indegree@) =~= before_degrees.update(
                        c as int,
                        before_degrees[c as int] - 1,
                    ));
                    proof {
                        assert forall|w: int|
                            0 <= w < n && !done.contains(w) && indegree@[w] == 0 implies #[trigger] ready@.contains(
                            w as usize,
                        ) by {
                            if w == c as int {
                                assert(ready@[ready@.len() - 1] == c);
                            } else {
                                assert(before.contains(w as usize));
                                let k = choose|k: int| 0 <= k < before.len() && before[k] == w as usize;
                                assert(ready@[k] == w as usize);
                            }
                        }
                    }
                    j = j + 1;
                }
                proof {
                    assert forall|w: int| 0 <= w < n implies #[trigger] indegree@[w] == pending_in(
                        cs,
                        done,
                        w as usize,
                        n as int,
                    ) by {
                        assert(list@.skip(list@.len() as int) =~= Seq::<usize>::empty());
                    }
                    lemma_distinct_bounded(order@, n as nat);
                    assert(order@ =~= old_order.push(u));
                }
            },
        }
    }
    proof {
        lemma_distinct_bounded(order@, n as nat);
        lemma_kahn_stable(cs, initial, order@.len() as nat, n as nat);
    }
    if order.len() != n {
        proof {
            let rest = Set::new(|x: int| 0 <= x < n && !done.contains(x));
            let start = choose|v: int| #![trigger order@.contains(v as usize)] 0 <= v < n && !order@.contains(v as usize);
            assert(rest.contains(start));
            assert forall|w: int| #![trigger rest.contains(w)] rest.contains(w) implies 0 <= w
                < consumers@.len() && exists|x: int|
                rest.contains(x) && #[trigger] has_edge(cs, x, w) by {
                if indegree@[w] == 0 {
                    assert(ready@.contains(w as usize));
                }
                let x = lemma_pending_witness(cs, done, w as usize, n as int);
                lemma_count_positive(cs[x], w as usize);
                assert(rest.contains(x));
                assert(has_edge(cs, x, w));
            }
            lemma_no_topological_order(cs, rest, start);
        }
        return Err(Error::Cycle);
    }
    proof {
        assert forall|p: int, q: int|
            0 <= p < order@.len() && 0 <= q < order@.len() && #[trigger] has_edge(
                cs,
                order@[p] as int,
                order@[q] as int,
            ) implies p < q by {
            let pp = choose|pp: int| 0 <= pp < q && #[trigger] order@[pp] == order@[p] as int;
            assert(pp == p);
        }
        assert forall|k: usize| k < order@.len() implies #[trigger] order@.contains(k) by {
            assert(order@.contains((k as int) as usize));
        }
    }
    Ok(order)
}

} // verus!
