//! What spreading threads over the nodes of a machine promises.

use vstd::prelude::*;
use crate::platform::numa;
use crate::platform::numa::NumaIndex;

verus! {

/// The size that a node counts with: an empty one counts as one processor.
pub open spec fn size_of(nodes: Seq<Seq<usize>>, k: int) -> int {
    if nodes[k].len() == 0 {
        1
    } else {
        nodes[k].len() as int
    }
}

proof fn lemma_no_less(x: int, a: int, y: int, b: int, z: int, c: int)
    requires
        0 <= x,
        0 <= y,
        0 <= z,
        1 <= a,
        1 <= b,
        1 <= c,
        x * b <= y * a,
        y * c <= z * b,
    ensures
        x * c <= z * a,
{
    assert(x * c * b <= z * a * b) by (nonlinear_arith)
        requires
            x * b <= y * a,
            y * c <= z * b,
            1 <= a,
            1 <= b,
            1 <= c,
    ;
    assert(x * c <= z * a) by (nonlinear_arith)
        requires
            x * c * b <= z * a * b,
            1 <= b,
    ;
}

proof fn lemma_least_filled(nodes: Seq<Seq<usize>>, taken: Seq<int>, n: int, k: int)
    requires
        1 <= n <= nodes.len(),
        0 <= k < n,
        forall|i: int| 0 <= i < nodes.len() ==> #[trigger] taken[i] >= 0,
    ensures
        ({
            let m = numa::least_filled(nodes, taken, n);
            &&& 0 <= m < n
            &&& taken[m] * size_of(nodes, k) <= taken[k] * size_of(nodes, m)
        }),
    decreases n,
{
    if n > 1 {
        let m = numa::least_filled(nodes, taken, n - 1);
        let j = if k < n - 1 {
            k
        } else {
            0
        };
        lemma_least_filled(nodes, taken, n - 1, j);
        assert(taken[n - 1] >= 0 && taken[m] >= 0 && taken[j] >= 0);
        if numa::least_filled(nodes, taken, n) == n - 1 && k < n - 1 {
            lemma_no_less(
                taken[n - 1],
                size_of(nodes, n - 1),
                taken[m],
                size_of(nodes, m),
                taken[k],
                size_of(nodes, k),
            );
        }
    }
}

proof fn lemma_on_node(spread: Seq<NumaIndex>, k: int, m: int, n: int)
    requires
        0 <= m <= n,
    ensures
        0 <= numa::on_node(spread, k, m) <= numa::on_node(spread, k, n),
    decreases n,
{
    if n > m {
        lemma_on_node(spread, k, m, n - 1);
    } else if m > 0 {
        lemma_on_node(spread, k, m - 1, m - 1);
    }
}

/// The last of the first `n` threads that is on node `k`.
proof fn lemma_last_on(spread: Seq<NumaIndex>, k: int, n: int) -> (i: int)
    requires
        0 <= n <= spread.len(),
        numa::on_node(spread, k, n) >= 1,
    ensures
        0 <= i < n,
        spread[i].0 == k,
        numa::on_node(spread, k, n) == numa::on_node(spread, k, i) + 1,
    decreases n,
{
    if spread[n - 1].0 == k {
        n - 1
    } else {
        lemma_last_on(spread, k, n - 1)
    }
}

/// No node is overfilled: take the last thread away from a node that has one, and it is filled to no
/// greater part than any other node.
pub proof fn law_no_node_is_overfilled(
    nodes: Seq<Seq<usize>>,
    spread: Seq<NumaIndex>,
    a: int,
    b: int,
)
    requires
        nodes.len() >= 2,
        numa::well_spread(nodes, spread),
        0 <= a < nodes.len(),
        0 <= b < nodes.len(),
        numa::on_node(spread, a, spread.len() as int) >= 1,
    ensures
        (numa::on_node(spread, a, spread.len() as int) - 1) * size_of(nodes, b) <= numa::on_node(
            spread,
            b,
            spread.len() as int,
        ) * size_of(nodes, a),
{
    let n = spread.len() as int;
    let i = lemma_last_on(spread, a, n);
    let taken = Seq::new(nodes.len(), |k: int| numa::on_node(spread, k, i));
    assert forall|k: int| 0 <= k < nodes.len() implies #[trigger] taken[k] >= 0 by {
        lemma_on_node(spread, k, i, n);
    }
    assert(spread[i].0 == a);
    lemma_least_filled(nodes, taken, nodes.len() as int, b);
    lemma_on_node(spread, b, i, n);
    let x = numa::on_node(spread, b, i);
    let y = numa::on_node(spread, b, n);
    let s = size_of(nodes, a);
    assert(x * s <= y * s) by (nonlinear_arith)
        requires
            x <= y,
            s >= 1,
    ;
}

/// Every thread has a node of the machine.
pub proof fn law_threads_have_nodes(nodes: Seq<Seq<usize>>, spread: Seq<NumaIndex>, i: int)
    requires
        numa::well_spread(nodes, spread),
        nodes.len() >= 1,
        0 <= i < spread.len(),
    ensures
        0 <= spread[i].0 < nodes.len(),
{
    let taken = Seq::new(nodes.len(), |k: int| numa::on_node(spread, k, i));
    assert forall|k: int| 0 <= k < nodes.len() implies #[trigger] taken[k] >= 0 by {
        lemma_on_node(spread, k, i, i);
    }
    lemma_least_filled(nodes, taken, nodes.len() as int, 0);
    assert(spread[i].0 == spread[i].0);
}

proof fn lemma_largest(nodes: Seq<Seq<usize>>, n: int, k: int)
    requires
        0 <= k < n <= nodes.len(),
    ensures
        nodes[k].len() <= numa::largest_upto(nodes, n),
        exists|m: int| 0 <= m < n && (#[trigger] nodes[m]).len() == numa::largest_upto(nodes, n),
    decreases n,
{
    if n > 1 {
        lemma_largest(nodes, n - 1, if k < n - 1 {
            k
        } else {
            0
        });
        let m = choose|m: int|
            0 <= m < n - 1 && (#[trigger] nodes[m]).len() == numa::largest_upto(nodes, n - 1);
        if nodes[n - 1].len() > numa::largest_upto(nodes, n - 1) {
            assert(nodes[n - 1].len() == numa::largest_upto(nodes, n));
        } else {
            assert(nodes[m].len() == numa::largest_upto(nodes, n));
        }
    } else {
        assert(numa::largest_upto(nodes, 0) == 0);
        assert(nodes[0].len() == numa::largest_upto(nodes, 1));
    }
}

/// Threads are bound always on a machine that was divided by hand; else never a single one, never on
/// one node, and once they are worth binding more of them are too. As soon as they outnumber half
/// of every node, they are.
pub proof fn law_more_threads_are_bound_sooner(
    nodes: Seq<Seq<usize>>,
    custom: bool,
    few: int,
    many: int,
)
    requires
        0 <= few <= many,
    ensures
        custom ==> numa::worth_binding(nodes, custom, few),
        !custom && few <= 1 ==> !numa::worth_binding(nodes, custom, few),
        !custom && nodes.len() <= 1 ==> !numa::worth_binding(nodes, custom, few),
        numa::worth_binding(nodes, custom, few) ==> numa::worth_binding(nodes, custom, many),
        nodes.len() >= 2 && few >= 2 && (forall|k: int|
            0 <= k < nodes.len() ==> 2 * few > (#[trigger] nodes[k]).len()) ==> numa::worth_binding(
            nodes,
            custom,
            few,
        ),
{
    let n = nodes.len() as int;
    if n >= 2 {
        lemma_largest(nodes, n, 0);
        let m = choose|m: int| 0 <= m < n && (#[trigger] nodes[m]).len() == numa::largest_upto(nodes, n);
        assert(nodes[m].len() == numa::largest_upto(nodes, n));
    }
}

proof fn lemma_even_nodes(nodes: Seq<Seq<usize>>, s: int, n: int)
    requires
        0 <= n <= nodes.len(),
        s >= 1,
        forall|k: int| 0 <= k < nodes.len() ==> (#[trigger] nodes[k]).len() == s,
    ensures
        n >= 1 ==> numa::largest_upto(nodes, n) == s,
        n == 0 ==> numa::largest_upto(nodes, n) == 0,
        numa::large_upto(nodes, s, n) == n,
    decreases n,
{
    if n > 0 {
        lemma_even_nodes(nodes, s, n - 1);
        assert(nodes[n - 1].len() == s);
    }
}

/// On a machine of equal nodes threads are bound when they are more than half of a node, or four for
/// every node.
pub proof fn law_equal_nodes_bind_at_half(nodes: Seq<Seq<usize>>, s: int, threads: int)
    requires
        nodes.len() >= 2,
        s >= 1,
        forall|k: int| 0 <= k < nodes.len() ==> (#[trigger] nodes[k]).len() == s,
        threads >= 2,
    ensures
        numa::worth_binding(nodes, false, threads) == (threads > s / 2 || threads >= 4
            * nodes.len()),
{
    lemma_even_nodes(nodes, s, nodes.len() as int);
}

proof fn lemma_dominated(nodes: Seq<Seq<usize>>, s: int, k: int, n: int)
    requires
        0 <= n <= nodes.len(),
        0 <= k < nodes.len(),
        nodes[k].len() == s,
        s >= 1,
        forall|j: int|
            0 <= j < nodes.len() && j != k ==> 5 * (#[trigger] nodes[j]).len() <= 3 * s,
    ensures
        numa::large_upto(nodes, s, n) == (if k < n {
            1int
        } else {
            0
        }),
    decreases n,
{
    if n > 0 {
        lemma_dominated(nodes, s, k, n - 1);
        if n - 1 != k {
            assert(5 * nodes[n - 1].len() <= 3 * s);
        }
    }
}

/// Nodes of at most three fifths of the largest do not count: beside one large node, four threads
/// are enough.
pub proof fn law_small_nodes_do_not_count(nodes: Seq<Seq<usize>>, k: int, threads: int)
    requires
        nodes.len() >= 2,
        0 <= k < nodes.len(),
        nodes[k].len() >= 1,
        forall|j: int|
            0 <= j < nodes.len() && j != k ==> 5 * (#[trigger] nodes[j]).len() <= 3 * nodes[k].len(),
        threads >= 2,
    ensures
        numa::worth_binding(nodes, false, threads) == (2 * threads > nodes[k].len() || threads >= 4),
{
    let n = nodes.len() as int;
    let s = nodes[k].len() as int;
    lemma_largest(nodes, n, k);
    let m = choose|m: int| 0 <= m < n && (#[trigger] nodes[m]).len() == numa::largest_upto(nodes, n);
    assert(m != k ==> 5 * nodes[m].len() <= 3 * s);
    assert(numa::largest_upto(nodes, n) == s);
    lemma_dominated(nodes, s, k, n);
}

} // verus!
