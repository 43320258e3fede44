//! Whom the nodes of a machine hold.

use vstd::prelude::*;
use crate::platform::numa;
use crate::platform::numa::SystemListing;

verus! {

/// The first `m` processors of a list hold `x`.
pub open spec fn listed_in(cs: Seq<usize>, m: int, x: usize) -> bool {
    exists|i: int| 0 <= i < m && #[trigger] cs[i] == x
}

proof fn lemma_joined(
    nodes: Seq<Seq<usize>>,
    n: int,
    cs: Seq<usize>,
    affinity: Option<Seq<usize>>,
    m: int,
)
    requires
        numa::partition(nodes),
        0 <= n,
        0 <= m <= cs.len(),
    ensures
        numa::partition(numa::joined(nodes, n, cs, affinity, m)),
        forall|x: usize| #[trigger]
            numa::assigned(numa::joined(nodes, n, cs, affinity, m), x) == (numa::assigned(nodes, x)
                || (listed_in(cs, m, x) && numa::allowed(affinity, x))),
    decreases m,
{
    if m > 0 {
        lemma_joined(nodes, n, cs, affinity, m - 1);
        let v = numa::joined(nodes, n, cs, affinity, m - 1);
        numa::lemma_put(v, n, cs[m - 1]);
        assert forall|x: usize| #[trigger]
            numa::assigned(numa::joined(nodes, n, cs, affinity, m), x) == (numa::assigned(nodes, x)
                || (listed_in(cs, m, x) && numa::allowed(affinity, x))) by {
            assert(numa::assigned(v, x) == (numa::assigned(nodes, x) || (listed_in(cs, m - 1, x)
                && numa::allowed(affinity, x))));
            if listed_in(cs, m, x) && x != cs[m - 1] {
                let i = choose|i: int| 0 <= i < m && #[trigger] cs[i] == x;
                assert(0 <= i < m - 1 && cs[i] == x);
            }
            if listed_in(cs, m - 1, x) {
                let i = choose|i: int| 0 <= i < m - 1 && #[trigger] cs[i] == x;
                assert(0 <= i < m && cs[i] == x);
            }
            if x == cs[m - 1] {
                assert(0 <= m - 1 < m && cs[m - 1] == x);
            }
        }
    }
}

/// Online node `k` lists `x`.
pub open spec fn told_by(node_cpus: Seq<Option<Vec<usize>>>, k: int, x: usize) -> bool {
    node_cpus[k] is Some && listed_in((node_cpus[k]->0)@, (node_cpus[k]->0)@.len() as int, x)
}

/// Some of the first `m` online nodes lists `x`.
pub open spec fn reported_in(node_cpus: Seq<Option<Vec<usize>>>, m: int, x: usize) -> bool {
    exists|k: int| 0 <= k < m && #[trigger] told_by(node_cpus, k, x)
}

proof fn lemma_online(
    online: Seq<usize>,
    node_cpus: Seq<Option<Vec<usize>>>,
    affinity: Option<Seq<usize>>,
    m: int,
)
    requires
        0 <= m <= online.len(),
        numa::online_upto(online, node_cpus, affinity, m) is Some,
    ensures
        ({
            let v = numa::online_upto(online, node_cpus, affinity, m)->0;
            &&& numa::partition(v)
            &&& forall|x: usize| #[trigger]
                numa::assigned(v, x) == (reported_in(node_cpus, m, x) && numa::allowed(affinity, x))
        }),
    decreases m,
{
    let v = numa::online_upto(online, node_cpus, affinity, m)->0;
    if m > 0 {
        lemma_online(online, node_cpus, affinity, m - 1);
        let u = numa::online_upto(online, node_cpus, affinity, m - 1)->0;
        let cs = node_cpus[m - 1]->0;
        lemma_joined(u, online[m - 1] as int, cs@, affinity, cs@.len() as int);
        assert forall|x: usize| #[trigger]
            numa::assigned(v, x) == (reported_in(node_cpus, m, x) && numa::allowed(affinity, x)) by {
            assert(numa::assigned(u, x) == (reported_in(node_cpus, m - 1, x) && numa::allowed(
                affinity,
                x,
            )));
            if reported_in(node_cpus, m, x) {
                let k = choose|k: int| 0 <= k < m && #[trigger] told_by(node_cpus, k, x);
                if k < m - 1 {
                    assert(0 <= k < m - 1 && told_by(node_cpus, k, x));
                    assert(reported_in(node_cpus, m - 1, x));
                }
            }
            if reported_in(node_cpus, m - 1, x) {
                let k = choose|k: int| 0 <= k < m - 1 && #[trigger] told_by(node_cpus, k, x);
                assert(0 <= k < m && told_by(node_cpus, k, x));
            }
            if listed_in(cs@, cs@.len() as int, x) {
                assert(told_by(node_cpus, m - 1, x));
                assert(reported_in(node_cpus, m, x));
            }
        }
    } else {
        assert(v =~= Seq::empty());
    }
}

/// The system's own nodes hold exactly the processors that it reports on its online nodes and that
/// may be used, each on one node. Where it does not report them all, they hold the first processors,
/// as many as run at once, of those that may be used.
pub proof fn law_system_nodes_hold_what_is_reported(
    l: &SystemListing,
    affinity: Option<Seq<usize>>,
    x: usize,
)
    ensures
        numa::partition(numa::system_nodes(l, affinity)),
        ({
            let told = l.online is Some && numa::online_upto(
                (l.online->0)@,
                l.node_cpus@,
                affinity,
                (l.online->0)@.len() as int,
            ) is Some;
            &&& told ==> numa::assigned(numa::system_nodes(l, affinity), x) == (reported_in(
                l.node_cpus@,
                (l.online->0)@.len() as int,
                x,
            ) && numa::allowed(affinity, x))
            &&& !told ==> numa::assigned(numa::system_nodes(l, affinity), x) == (x < l.parallelism
                && numa::allowed(affinity, x))
        }),
{
    let told = l.online is Some && numa::online_upto(
        (l.online->0)@,
        l.node_cpus@,
        affinity,
        (l.online->0)@.len() as int,
    ) is Some;
    if told {
        lemma_online((l.online->0)@, l.node_cpus@, affinity, (l.online->0)@.len() as int);
    } else {
        let n = l.parallelism as int;
        let cs = numa::counting(n);
        let none: Seq<Seq<usize>> = Seq::empty();
        assert(numa::partition(none));
        lemma_joined(none, 0, cs, affinity, n);
        assert(!numa::assigned(none, x));
        if x < l.parallelism {
            assert(cs[x as int] == x);
        }
        assert(numa::assigned(numa::joined(none, 0, cs, affinity, n), x) == (listed_in(cs, n, x)
            && numa::allowed(affinity, x)));
    }
}

/// The reports fail as a whole when one online node does not list its processors.
pub proof fn law_missing_reports_are_noticed(
    online: Seq<usize>,
    node_cpus: Seq<Option<Vec<usize>>>,
    affinity: Option<Seq<usize>>,
    m: int,
)
    requires
        0 <= m <= online.len(),
    ensures
        (numa::online_upto(online, node_cpus, affinity, m) is Some) == (m <= node_cpus.len() && (
        forall|k: int| 0 <= k < m ==> (#[trigger] node_cpus[k]) is Some)),
    decreases m,
{
    if m > 0 {
        law_missing_reports_are_noticed(online, node_cpus, affinity, m - 1);
        if numa::online_upto(online, node_cpus, affinity, m) is Some {
            assert forall|k: int| 0 <= k < m implies (#[trigger] node_cpus[k]) is Some by {}
        } else if m <= node_cpus.len() && forall|k: int|
            0 <= k < m ==> (#[trigger] node_cpus[k]) is Some {
            assert(node_cpus[m - 1] is Some);
        }
    }
}

proof fn lemma_nonempty_assigned(nodes: Seq<Seq<usize>>, n: int, x: usize)
    requires
        0 <= n <= nodes.len(),
    ensures
        numa::assigned(numa::nonempty_upto(nodes, n), x) == (exists|k: int|
            0 <= k < n && (#[trigger] nodes[k]).contains(x)),
    decreases n,
{
    if n > 0 {
        lemma_nonempty_assigned(nodes, n - 1, x);
        let u = numa::nonempty_upto(nodes, n - 1);
        let v = numa::nonempty_upto(nodes, n);
        if numa::assigned(u, x) {
            let k = choose|k: int| 0 <= k < u.len() && (#[trigger] u[k]).contains(x);
            assert(v[k] == u[k]);
        }
        if nodes[n - 1].contains(x) {
            assert(v[v.len() - 1] == nodes[n - 1]);
        }
        if numa::assigned(v, x) && !numa::assigned(u, x) {
            let k = choose|k: int| 0 <= k < v.len() && (#[trigger] v[k]).contains(x);
            if k < u.len() {
                assert(u[k] == v[k]);
            }
            assert(v[k] == nodes[n - 1]);
        }
        if exists|k: int| 0 <= k < n && (#[trigger] nodes[k]).contains(x) {
            let k = choose|k: int| 0 <= k < n && (#[trigger] nodes[k]).contains(x);
            if k < n - 1 {
                assert(0 <= k < n - 1 && nodes[k].contains(x));
            }
        }
    }
}

/// Dropping the empty nodes loses no processor and adds none.
pub proof fn law_dropping_empty_nodes_keeps_everyone(nodes: Seq<Seq<usize>>, x: usize)
    ensures
        numa::assigned(numa::nonempty_upto(nodes, nodes.len() as int), x) == numa::assigned(nodes, x),
{
    lemma_nonempty_assigned(nodes, nodes.len() as int, x);
    if numa::assigned(nodes, x) {
        let k = choose|k: int| 0 <= k < nodes.len() && (#[trigger] nodes[k]).contains(x);
        assert(0 <= k < nodes.len() && nodes[k].contains(x));
    }
}

// ---------------------------------------------------------------------------
// Bundles
// ---------------------------------------------------------------------------

proof fn lemma_placed_all(v: Seq<usize>, cs: Seq<usize>, n: int)
    requires
        numa::ascending(v),
        0 <= n <= cs.len(),
    ensures
        numa::ascending(numa::placed_upto(v, cs, n)),
        numa::placed_upto(v, cs, n).len() <= v.len() + n,
        forall|x: usize| #[trigger]
            numa::placed_upto(v, cs, n).contains(x) == (v.contains(x) || listed_in(cs, n, x)),
    decreases n,
{
    if n > 0 {
        lemma_placed_all(v, cs, n - 1);
        let u = numa::placed_upto(v, cs, n - 1);
        numa::lemma_placed(u, cs[n - 1]);
        assert forall|x: usize| #[trigger]
            numa::placed_upto(v, cs, n).contains(x) == (v.contains(x) || listed_in(cs, n, x)) by {
            assert(u.contains(x) == (v.contains(x) || listed_in(cs, n - 1, x)));
            if listed_in(cs, n, x) && x != cs[n - 1] {
                let i = choose|i: int| 0 <= i < n && #[trigger] cs[i] == x;
                assert(0 <= i < n - 1 && cs[i] == x);
            }
            if listed_in(cs, n - 1, x) {
                let i = choose|i: int| 0 <= i < n - 1 && #[trigger] cs[i] == x;
                assert(0 <= i < n && cs[i] == x);
            }
            if x == cs[n - 1] {
                assert(0 <= n - 1 < n && cs[n - 1] == x);
            }
        }
    }
}

/// Some of the first `n` domains on the system node holds `x`.
pub open spec fn in_domains(ds: Seq<(int, Seq<usize>)>, node: int, n: int, x: usize) -> bool {
    exists|i: int| 0 <= i < n && (#[trigger] ds[i]).0 == node && ds[i].1.contains(x)
}

/// Bundles join domains of one system node: no bundle of more than one domain is larger than the
/// size, every processor of a domain of the node is in a bundle, and no other is.
#[verifier::spinoff_prover]
pub proof fn law_bundles_hold_their_domains(
    ds: Seq<(int, Seq<usize>)>,
    node: int,
    size: int,
    n: int,
    x: usize,
)
    requires
        0 <= n <= ds.len(),
        forall|i: int| 0 <= i < ds.len() ==> numa::ascending((#[trigger] ds[i]).1),
    ensures
        ({
            let g = numa::bundles_upto(ds, node, size, n);
            &&& forall|k: int| 0 <= k < g.len() ==> numa::ascending(#[trigger] g[k])
            &&& forall|k: int|
                0 <= k < g.len() ==> (#[trigger] g[k]).len() <= size || exists|i: int|
                    0 <= i < n && g[k] == (#[trigger] ds[i]).1
            &&& numa::assigned(g, x) == in_domains(ds, node, n, x)
        }),
    decreases n,
{
    if n > 0 {
        law_bundles_hold_their_domains(ds, node, size, n - 1, x);
        let g = numa::bundles_upto(ds, node, size, n - 1);
        let h = numa::bundles_upto(ds, node, size, n);
        let d = ds[n - 1].1;
        assert(numa::ascending(d));
        if in_domains(ds, node, n - 1, x) {
            let i = choose|i: int|
                0 <= i < n - 1 && (#[trigger] ds[i]).0 == node && ds[i].1.contains(x);
            assert(0 <= i < n && ds[i].0 == node && ds[i].1.contains(x));
        }
        if in_domains(ds, node, n, x) {
            let i = choose|i: int| 0 <= i < n && (#[trigger] ds[i]).0 == node && ds[i].1.contains(x);
            if i < n - 1 {
                assert(in_domains(ds, node, n - 1, x));
            }
        }
        assert(in_domains(ds, node, n, x) == (in_domains(ds, node, n - 1, x) || (ds[n - 1].0 == node
            && d.contains(x)))) by {
            if ds[n - 1].0 == node && d.contains(x) {
                assert(0 <= n - 1 < n && ds[n - 1].0 == node && ds[n - 1].1.contains(x));
            }
        }
        if ds[n - 1].0 != node {
            assert forall|k: int| 0 <= k < h.len() implies (#[trigger] h[k]).len() <= size || exists|
                i: int,
            |
                0 <= i < n && h[k] == (#[trigger] ds[i]).1 by {
                if g[k].len() > size {
                    let i = choose|i: int| 0 <= i < n - 1 && g[k] == (#[trigger] ds[i]).1;
                    assert(0 <= i < n && h[k] == ds[i].1);
                }
            }
        } else if g.len() > 0 && g.last().len() + d.len() <= size {
            let last = g.len() - 1;
            lemma_placed_all(g.last(), d, d.len() as int);
            assert forall|k: int| 0 <= k < h.len() implies (#[trigger] h[k]).len() <= size || exists|
                i: int,
            |
                0 <= i < n && h[k] == (#[trigger] ds[i]).1 by {
                if k < last && g[k].len() > size {
                    let i = choose|i: int| 0 <= i < n - 1 && g[k] == (#[trigger] ds[i]).1;
                    assert(0 <= i < n && h[k] == ds[i].1);
                }
            }
            assert forall|k: int| 0 <= k < h.len() implies numa::ascending(#[trigger] h[k]) by {
                if k < last {
                    assert(h[k] == g[k]);
                }
            }
            if numa::assigned(g, x) {
                let k = choose|k: int| 0 <= k < g.len() && (#[trigger] g[k]).contains(x);
                assert(h[k].contains(x));
            }
            if d.contains(x) {
                let i = d.index_of(x);
                assert(d[i] == x);
                assert(listed_in(d, d.len() as int, x));
                assert(h[last].contains(x));
            }
            if numa::assigned(h, x) {
                let k = choose|k: int| 0 <= k < h.len() && (#[trigger] h[k]).contains(x);
                if k < last {
                    assert(g[k].contains(x));
                } else if g.last().contains(x) {
                    assert(g[last].contains(x));
                } else {
                    assert(listed_in(d, d.len() as int, x));
                    let i = choose|i: int| 0 <= i < d.len() && #[trigger] d[i] == x;
                    assert(d.contains(x));
                }
            }
        } else {
            assert forall|k: int| 0 <= k < h.len() implies (#[trigger] h[k]).len() <= size || exists|
                i: int,
            |
                0 <= i < n && h[k] == (#[trigger] ds[i]).1 by {
                if k < g.len() {
                    assert(h[k] == g[k]);
                    if g[k].len() > size {
                        let i = choose|i: int| 0 <= i < n - 1 && g[k] == (#[trigger] ds[i]).1;
                        assert(0 <= i < n && h[k] == ds[i].1);
                    }
                } else {
                    assert(0 <= n - 1 < n && h[k] == ds[n - 1].1);
                }
            }
            assert forall|k: int| 0 <= k < h.len() implies numa::ascending(#[trigger] h[k]) by {
                if k < g.len() {
                    assert(h[k] == g[k]);
                }
            }
            if numa::assigned(g, x) {
                let k = choose|k: int| 0 <= k < g.len() && (#[trigger] g[k]).contains(x);
                assert(h[k].contains(x));
            }
            if d.contains(x) {
                assert(h[g.len() as int].contains(x));
            }
            if numa::assigned(h, x) {
                let k = choose|k: int| 0 <= k < h.len() && (#[trigger] h[k]).contains(x);
                if k < g.len() {
                    assert(g[k].contains(x));
                }
            }
        }
    }
}

/// A bundle is closed only where a domain did not fit: every bundle but a node's last would be larger
/// than the size with some domain of the node.
pub proof fn law_bundles_are_filled(ds: Seq<(int, Seq<usize>)>, node: int, size: int, n: int, k: int)
    requires
        0 <= n <= ds.len(),
        forall|i: int| 0 <= i < ds.len() ==> numa::ascending((#[trigger] ds[i]).1),
        0 <= k,
        k + 1 < numa::bundles_upto(ds, node, size, n).len(),
    ensures
        exists|i: int|
            0 <= i < n && (#[trigger] ds[i]).0 == node && numa::bundles_upto(ds, node, size, n)[k].len()
                + ds[i].1.len() > size,
    decreases n,
{
    if n > 0 {
        let g = numa::bundles_upto(ds, node, size, n - 1);
        let h = numa::bundles_upto(ds, node, size, n);
        if k + 1 < g.len() {
            law_bundles_are_filled(ds, node, size, n - 1, k);
            let i = choose|i: int|
                0 <= i < n - 1 && (#[trigger] ds[i]).0 == node && g[k].len() + ds[i].1.len() > size;
            assert(h[k] == g[k]);
            assert(0 <= i < n && ds[i].0 == node && h[k].len() + ds[i].1.len() > size);
        } else {
            assert(h[k] == g[k] && g.last() == g[k]);
            assert(ds[n - 1].0 == node && h[k].len() + ds[n - 1].1.len() > size);
        }
    }
}

} // verus!
