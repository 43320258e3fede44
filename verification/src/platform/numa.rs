//! The topology of the machine: which processors exist, how they group into nodes, and how
//! threads are spread over them.
//!
//! What the machine reports is read elsewhere and handed in as lists of numbers. A
//! configuration is a partition: no processor belongs to two nodes.

use vstd::prelude::*;
use vstd::string::StringExecFns;
use crate::board::text;
use crate::board::text::push_decimal;
use crate::platform::lists::{indices_of_bytes, split};
use crate::platform::lists;

verus! {

/// The number of a processor.
#[derive(Clone, Copy, Debug, PartialEq, Eq, PartialOrd, Ord, Hash, Structural)]
pub struct CpuIndex(pub usize);

impl CpuIndex {
    /// Build from a processor number.
    pub fn new(i: usize) -> (r: CpuIndex)
        ensures
            r.0 == i,
    {
        CpuIndex(i)
    }

    /// The number.
    pub fn index(self) -> (r: usize)
        ensures
            r == self.0,
    {
        self.0
    }
}

/// The number of a node in a configuration, which need not be the system's.
#[derive(Clone, Copy, Debug, PartialEq, Eq, PartialOrd, Ord, Hash, Structural)]
pub struct NumaIndex(pub usize);

impl NumaIndex {
    /// Build from a node number.
    pub fn new(i: usize) -> (r: NumaIndex)
        ensures
            r.0 == i,
    {
        NumaIndex(i)
    }

    /// The number.
    pub fn index(self) -> (r: usize)
        ensures
            r == self.0,
    {
        self.0
    }
}

/// How the processors of a machine are partitioned.
#[derive(Clone, Copy, Debug, PartialEq, Eq, Structural)]
pub enum AutoPolicy {
    /// By the system's own nodes.
    System,
    /// By the caches that the system reports.
    L3Domains,
    /// By caches, with neighbours merged while they hold at most `bundle_size` processors.
    BundledL3 { bundle_size: usize },
}

/// The partition that is used unless another is asked for: caches bundled up to 32 processors.
pub fn default_auto_policy() -> (r: AutoPolicy)
    ensures
        r == (AutoPolicy::BundledL3 { bundle_size: 32 }),
{
    AutoPolicy::BundledL3 { bundle_size: 32 }
}

/// The most processors that one policy text may name.
pub const MAX_TOTAL_CPUS: usize = 1_048_576;

// ---------------------------------------------------------------------------
// Ordered sets
// ---------------------------------------------------------------------------

/// Strictly ascending.
pub open spec fn ascending(v: Seq<usize>) -> bool {
    forall|i: int, j: int| 0 <= i < j < v.len() ==> v[i] < v[j]
}

/// An ascending list with one more number.
pub open spec fn placed(v: Seq<usize>, c: usize) -> Seq<usize>
    decreases v.len(),
{
    if v.len() == 0 || v.last() < c {
        v.push(c)
    } else if v.last() == c {
        v
    } else {
        placed(v.drop_last(), c).push(v.last())
    }
}

/// An ascending list with the first `n` numbers of another.
pub open spec fn placed_upto(v: Seq<usize>, cs: Seq<usize>, n: int) -> Seq<usize>
    decreases n,
{
    if n <= 0 {
        v
    } else {
        placed(placed_upto(v, cs, n - 1), cs[n - 1])
    }
}

pub proof fn lemma_placed(v: Seq<usize>, c: usize)
    requires
        ascending(v),
    ensures
        ascending(placed(v, c)),
        forall|x: usize| #[trigger] placed(v, c).contains(x) == (x == c || v.contains(x)),
        placed(v, c).len() == v.len() + (if v.contains(c) {
            0int
        } else {
            1int
        }),
    decreases v.len(),
{
    if v.len() == 0 || v.last() < c {
        let r = v.push(c);
        assert forall|x: usize| #[trigger] r.contains(x) == (x == c || v.contains(x)) by {
            if v.contains(x) {
                let i = choose|i: int| 0 <= i < v.len() && v[i] == x;
                assert(r[i] == x);
            }
            if x == c {
                assert(r[v.len() as int] == c);
            }
        }
    } else if v.last() == c {
        assert(v[v.len() - 1] == c);
    } else {
        let w = v.drop_last();
        lemma_placed(w, c);
        let p = placed(w, c);
        let r = p.push(v.last());
        assert forall|x: usize| #[trigger] r.contains(x) == (x == c || v.contains(x)) by {
            if r.contains(x) {
                let i = choose|i: int| 0 <= i < r.len() && r[i] == x;
                if i < p.len() {
                    assert(p.contains(x));
                    if w.contains(x) {
                        let k = choose|k: int| 0 <= k < w.len() && w[k] == x;
                        assert(v[k] == x);
                    }
                } else {
                    assert(v[v.len() - 1] == x);
                }
            }
            if x == c || v.contains(x) {
                if x != c && x == v.last() {
                    assert(r[p.len() as int] == x);
                } else {
                    if x != c {
                        let k = choose|k: int| 0 <= k < v.len() && v[k] == x;
                        assert(w[k] == x);
                    }
                    assert(p.contains(x));
                    let i = choose|i: int| 0 <= i < p.len() && p[i] == x;
                    assert(r[i] == x);
                }
            }
        }
        assert forall|i: int, j: int| 0 <= i < j < r.len() implies r[i] < r[j] by {
            if j == p.len() {
                assert(p.contains(p[i]));
                if p[i] != c {
                    assert(w.contains(p[i]));
                    let k = choose|k: int| 0 <= k < w.len() && w[k] == p[i];
                    assert(v[k] == p[i]);
                }
            }
        }
        assert(v.contains(c) == w.contains(c)) by {
            if v.contains(c) {
                let k = choose|k: int| 0 <= k < v.len() && v[k] == c;
                assert(w[k] == c);
            }
            if w.contains(c) {
                let k = choose|k: int| 0 <= k < w.len() && w[k] == c;
                assert(v[k] == c);
            }
        }
    }
}

/// Where a number stands in an ascending list, or belongs.
fn position(v: &Vec<usize>, c: usize) -> (r: usize)
    requires
        ascending(v@),
    ensures
        r <= v@.len(),
        forall|i: int| 0 <= i < r ==> #[trigger] v@[i] < c,
        forall|i: int| r <= i < v@.len() ==> #[trigger] v@[i] >= c,
{
    let mut lo: usize = 0;
    let mut hi: usize = v.len();
    while lo < hi
        invariant
            ascending(v@),
            lo <= hi <= v@.len(),
            forall|i: int| 0 <= i < lo ==> #[trigger] v@[i] < c,
            forall|i: int| hi <= i < v@.len() ==> #[trigger] v@[i] >= c,
        decreases hi - lo,
    {
        let mid: usize = lo + (hi - lo) / 2;
        if v[mid] < c {
            lo = mid + 1;
        } else {
            hi = mid;
        }
    }
    lo
}

/// Whether an ascending list holds a number.
fn holds(v: &Vec<usize>, c: usize) -> (r: bool)
    requires
        ascending(v@),
    ensures
        r == v@.contains(c),
{
    let p = position(v, c);
    if p < v.len() && v[p] == c {
        true
    } else {
        proof {
            if v@.contains(c) {
                let k = choose|k: int| 0 <= k < v@.len() && v@[k] == c;
                assert(v@[k] == c);
                assert(v@[p as int] == c);
            }
        }
        false
    }
}

proof fn lemma_placed_at(v: Seq<usize>, c: usize, p: int)
    requires
        ascending(v),
        0 <= p <= v.len(),
        forall|i: int| 0 <= i < p ==> #[trigger] v[i] < c,
        forall|i: int| p <= i < v.len() ==> #[trigger] v[i] > c,
    ensures
        placed(v, c) == v.insert(p, c),
    decreases v.len(),
{
    if v.len() == 0 || v.last() < c {
        if v.len() > 0 {
            assert(v[v.len() - 1] < c);
        }
        assert(p == v.len());
        assert(v.insert(p, c) =~= v.push(c));
    } else {
        let w = v.drop_last();
        assert(v[v.len() - 1] >= c);
        assert(p < v.len());
        assert(v[v.len() - 1] > c);
        lemma_placed_at(w, c, p);
        assert(v.insert(p, c) =~= w.insert(p, c).push(v.last()));
    }
}

/// Put a number into an ascending list.
fn place(v: &mut Vec<usize>, c: usize)
    requires
        ascending(old(v)@),
    ensures
        final(v)@ == placed(old(v)@, c),
        ascending(final(v)@),
{
    proof {
        lemma_placed(v@, c);
    }
    let p = position(v, c);
    if p < v.len() && v[p] == c {
        proof {
            lemma_placed_again(v@, c, p as int);
        }
        return;
    }
    proof {
        assert forall|i: int| p <= i < v@.len() implies #[trigger] v@[i] > c by {
            assert(v@[p as int] > c);
        }
        lemma_placed_at(v@, c, p as int);
    }
    v.insert(p, c);
}

proof fn lemma_placed_again(v: Seq<usize>, c: usize, p: int)
    requires
        ascending(v),
        0 <= p < v.len(),
        v[p] == c,
    ensures
        placed(v, c) == v,
    decreases v.len(),
{
    if p < v.len() - 1 {
        let w = v.drop_last();
        lemma_placed_again(w, c, p);
        assert(v[p] < v[v.len() - 1]);
        assert(w.push(v.last()) =~= v);
    }
}

// ---------------------------------------------------------------------------
// Configurations
// ---------------------------------------------------------------------------

/// The contents of a vector of vectors.
pub open spec fn deep(v: Seq<Vec<usize>>) -> Seq<Seq<usize>> {
    Seq::new(v.len(), |i: int| v[i]@)
}

/// Some node holds the processor.
pub open spec fn assigned(nodes: Seq<Seq<usize>>, c: usize) -> bool {
    exists|n: int| 0 <= n < nodes.len() && (#[trigger] nodes[n]).contains(c)
}

/// Every node is an ordered set, and no processor is in two of them.
pub open spec fn partition(nodes: Seq<Seq<usize>>) -> bool {
    &&& forall|n: int| 0 <= n < nodes.len() ==> ascending(#[trigger] nodes[n])
    &&& forall|m: int, n: int, c: usize|
        0 <= m < nodes.len() && 0 <= n < nodes.len() && #[trigger] nodes[m].contains(c)
            && #[trigger] nodes[n].contains(c) ==> m == n
}

/// The nodes with enough empty ones behind them to have a node `n`.
pub open spec fn grown(nodes: Seq<Seq<usize>>, n: int) -> Seq<Seq<usize>> {
    if nodes.len() <= n {
        nodes + Seq::new((n + 1 - nodes.len()) as nat, |i: int| Seq::<usize>::empty())
    } else {
        nodes
    }
}

/// The nodes with a processor put into node `n`; a processor that has a node stays there.
pub open spec fn put(nodes: Seq<Seq<usize>>, n: int, c: usize) -> Seq<Seq<usize>> {
    if assigned(nodes, c) {
        nodes
    } else {
        grown(nodes, n).update(n, placed(grown(nodes, n)[n], c))
    }
}

/// A partition of processors into nodes.
#[derive(Debug)]
pub struct NumaConfig {
    pub nodes: Vec<Vec<usize>>,
    /// The partition is not the system's own.
    pub custom_affinity: bool,
}

pub proof fn lemma_put(nodes: Seq<Seq<usize>>, n: int, c: usize)
    requires
        partition(nodes),
        0 <= n,
    ensures
        partition(put(nodes, n, c)),
        forall|x: usize| #[trigger] assigned(put(nodes, n, c), x) == (x == c || assigned(nodes, x)),
{
    if !assigned(nodes, c) {
        let g = grown(nodes, n);
        let r = put(nodes, n, c);
        assert forall|k: int| 0 <= k < g.len() implies ascending(#[trigger] g[k]) by {
            if k < nodes.len() {
                assert(g[k] == nodes[k]);
            }
        }
        lemma_placed(g[n], c);
        assert forall|k: int, x: usize| 0 <= k < g.len() implies (#[trigger] g[k].contains(x)) == (k
            < nodes.len() && nodes[k].contains(x)) by {
            if k < nodes.len() {
                assert(g[k] == nodes[k]);
            }
        }
        assert forall|k: int, x: usize| 0 <= k < r.len() implies (#[trigger] r[k].contains(x)) == (
        (k < nodes.len() && nodes[k].contains(x)) || (k == n && x == c)) by {
            if k == n {
                assert(r[n] == placed(g[n], c));
                assert(placed(g[n], c).contains(x) == (x == c || g[n].contains(x)));
                assert(g[n].contains(x) == (n < nodes.len() && nodes[n].contains(x)));
            } else {
                assert(r[k] == g[k]);
                assert(g[k].contains(x) == (k < nodes.len() && nodes[k].contains(x)));
            }
        }
        assert forall|k: int| 0 <= k < r.len() implies ascending(#[trigger] r[k]) by {
            if k != n {
                assert(r[k] == g[k]);
            }
        }
        assert forall|m: int, k: int, x: usize|
            0 <= m < r.len() && 0 <= k < r.len() && #[trigger] r[m].contains(x)
                && #[trigger] r[k].contains(x) implies m == k by {
            assert(r[m].contains(x));
            assert(r[k].contains(x));
            if x == c {
                assert(!(m < nodes.len() && nodes[m].contains(c)));
                assert(!(k < nodes.len() && nodes[k].contains(c)));
            }
        }
        assert forall|x: usize| #[trigger] assigned(r, x) == (x == c || assigned(nodes, x)) by {
            if assigned(r, x) {
                let k = choose|k: int| 0 <= k < r.len() && (#[trigger] r[k]).contains(x);
                assert(r[k].contains(x));
                if x != c {
                    assert(nodes[k].contains(x));
                }
            }
            if x == c {
                assert(r[n].contains(c));
            }
            if assigned(nodes, x) {
                let k = choose|k: int| 0 <= k < nodes.len() && (#[trigger] nodes[k]).contains(x);
                assert(r[k].contains(x));
            }
        }
    }
}

impl NumaConfig {
    /// The nodes as lists.
    pub open spec fn view(&self) -> Seq<Seq<usize>> {
        deep(self.nodes@)
    }

    pub open spec fn wf(&self) -> bool {
        partition(self.view())
    }

    /// A configuration with no processors in it.
    pub fn empty() -> (r: NumaConfig)
        ensures
            r.wf(),
            r@ == Seq::<Seq<usize>>::empty(),
            !r.custom_affinity,
    {
        let r = NumaConfig { nodes: Vec::new(), custom_affinity: false };
        assert(r@ =~= Seq::<Seq<usize>>::empty());
        r
    }

    /// Whether a processor belongs to some node.
    pub fn is_cpu_assigned(&self, c: CpuIndex) -> (r: bool)
        requires
            self.wf(),
        ensures
            r == assigned(self@, c.0),
    {
        let mut n: usize = 0;
        while n < self.nodes.len()
            invariant
                n <= self.nodes@.len(),
                self.wf(),
                forall|k: int| 0 <= k < n ==> !(#[trigger] self@[k]).contains(c.0),
            decreases self.nodes@.len() - n,
        {
            assert(self@[n as int] == self.nodes@[n as int]@);
            if holds(&self.nodes[n], c.0) {
                return true;
            }
            n += 1;
        }
        false
    }

    /// Put a processor into node `n`. False when it has a node already, and then nothing
    /// changes.
    pub fn add_cpu_to_node(&mut self, n: NumaIndex, c: CpuIndex) -> (r: bool)
        requires
            old(self).wf(),
            n.0 < usize::MAX,
        ensures
            final(self).wf(),
            final(self)@ == put(old(self)@, n.0 as int, c.0),
            final(self).custom_affinity == old(self).custom_affinity,
            r == !assigned(old(self)@, c.0),
    {
        let ghost start = self@;
        proof {
            lemma_put(start, n.0 as int, c.0);
        }
        if self.is_cpu_assigned(c) {
            return false;
        }
        assert(grown(start, -1) =~= start);
        while self.nodes.len() <= n.0
            invariant
                n.0 < usize::MAX,
                start.len() <= self.nodes@.len(),
                self.nodes@.len() <= n.0 + 1 || self.nodes@.len() == start.len(),
                forall|k: int| 0 <= k < start.len() ==> (#[trigger] self.nodes@[k])@ == start[k],
                forall|k: int|
                    start.len() <= k < self.nodes@.len() ==> (#[trigger] self.nodes@[k])@
                        == Seq::<usize>::empty(),
                self.custom_affinity == old(self).custom_affinity,
            decreases n.0 + 1 - self.nodes@.len(),
        {
            self.nodes.push(Vec::new());
        }
        let ghost mid = self@;
        assert(mid =~= grown(start, n.0 as int));
        proof {
            if n.0 < start.len() {
                assert(mid[n.0 as int] == start[n.0 as int]);
            }
            assert(ascending(self.nodes@[n.0 as int]@));
        }
        place(&mut self.nodes[n.0], c.0);
        assert(self@ =~= put(start, n.0 as int, c.0));
        true
    }

    /// How many nodes there are.
    pub fn num_numa_nodes(&self) -> (r: usize)
        ensures
            r == self@.len(),
    {
        self.nodes.len()
    }

    /// How many processors node `n` holds; none where there is no such node.
    pub fn num_cpus_in_numa_node(&self, n: NumaIndex) -> (r: usize)
        ensures
            r == (if n.0 < self@.len() {
                self@[n.0 as int].len()
            } else {
                0
            }),
    {
        if n.0 < self.nodes.len() {
            self.nodes[n.0].len()
        } else {
            0
        }
    }

    /// The processors of the first `n` nodes.
    pub open spec fn cpus_upto(nodes: Seq<Seq<usize>>, n: int) -> int
        decreases n,
    {
        if n <= 0 {
            0
        } else {
            NumaConfig::cpus_upto(nodes, n - 1) + nodes[n - 1].len()
        }
    }

    /// How many processors there are in all.
    pub fn num_cpus(&self) -> (r: usize)
        requires
            NumaConfig::cpus_upto(self@, self@.len() as int) <= usize::MAX,
        ensures
            r == NumaConfig::cpus_upto(self@, self@.len() as int),
    {
        let mut total: usize = 0;
        let mut n: usize = 0;
        while n < self.nodes.len()
            invariant
                n <= self.nodes@.len(),
                total == NumaConfig::cpus_upto(self@, n as int),
                NumaConfig::cpus_upto(self@, self@.len() as int) <= usize::MAX,
            decreases self.nodes@.len() - n,
        {
            proof {
                lemma_cpus_grow(self@, n + 1, self@.len() as int);
            }
            assert(self@[n as int] == self.nodes@[n as int]@);
            total = total + self.nodes[n].len();
            n += 1;
        }
        total
    }

    /// Whether data that is only read is worth a copy for each node.
    pub fn requires_memory_replication(&self) -> (r: bool)
        ensures
            r == (self.custom_affinity || self@.len() > 1),
    {
        self.custom_affinity || self.nodes.len() > 1
    }
}

pub proof fn lemma_cpus_grow(nodes: Seq<Seq<usize>>, m: int, n: int)
    requires
        0 <= m <= n,
    ensures
        0 <= NumaConfig::cpus_upto(nodes, m) <= NumaConfig::cpus_upto(nodes, n),
    decreases n,
{
    if m < n {
        lemma_cpus_grow(nodes, m, n - 1);
    } else if m > 0 {
        lemma_cpus_grow(nodes, m - 1, n - 1);
    }
}

// ---------------------------------------------------------------------------
// Policies as text
// ---------------------------------------------------------------------------

/// The first `m` processors put into node `n`, unless one of them has a node already.
pub open spec fn filled(nodes: Seq<Seq<usize>>, n: int, cs: Seq<usize>, m: int) -> Option<
    Seq<Seq<usize>>,
>
    decreases m,
{
    if m <= 0 {
        Some(nodes)
    } else {
        match filled(nodes, n, cs, m - 1) {
            None => None,
            Some(v) => if assigned(v, cs[m - 1]) {
                None
            } else {
                Some(put(v, n, cs[m - 1]))
            },
        }
    }
}

/// What the first `m` nodes of a policy text make: the nodes, how many of them there are, and
/// how many processors they name. A text that names nothing is no node.
pub open spec fn policy_upto(parts: Seq<Seq<u8>>, m: int) -> Option<(Seq<Seq<usize>>, int, int)>
    decreases m,
{
    if m <= 0 {
        Some((Seq::empty(), 0, 0))
    } else {
        match policy_upto(parts, m - 1) {
            None => None,
            Some((v, n, total)) => {
                let l = lists::listed(parts[m - 1]);
                if l.len() == 0 {
                    Some((v, n, total))
                } else if total + l.len() > MAX_TOTAL_CPUS {
                    None
                } else {
                    match filled(v, n, l, l.len() as int) {
                        None => None,
                        Some(w) => Some((w, n + 1, total + l.len())),
                    }
                }
            },
        }
    }
}

/// The partition that a policy text asks for. None when it names a processor twice, names more
/// than any machine has, or names nothing.
pub open spec fn policy_of(s: Seq<u8>) -> Option<Seq<Seq<usize>>> {
    let parts = lists::pieces(s, 58);
    match policy_upto(parts, parts.len() as int) {
        None => None,
        Some((v, n, _total)) => if n == 0 {
            None
        } else {
            Some(v)
        },
    }
}

proof fn lemma_policy_stops(parts: Seq<Seq<u8>>, m: int, n: int)
    requires
        0 <= m <= n,
        policy_upto(parts, m).is_none(),
    ensures
        policy_upto(parts, n).is_none(),
    decreases n - m,
{
    if m < n {
        lemma_policy_stops(parts, m, n - 1);
    }
}

impl NumaConfig {
    /// Put every processor of a list into one node; false when one of them has a node.
    fn fill(&mut self, n: usize, cs: &Vec<usize>) -> (r: bool)
        requires
            old(self).wf(),
            n < usize::MAX,
        ensures
            final(self).wf(),
            final(self).custom_affinity == old(self).custom_affinity,
            r == filled(old(self)@, n as int, cs@, cs@.len() as int).is_some(),
            r ==> filled(old(self)@, n as int, cs@, cs@.len() as int) == Some(final(self)@),
    {
        let ghost start = self@;
        let mut i: usize = 0;
        while i < cs.len()
            invariant
                i <= cs@.len(),
                n < usize::MAX,
                self.wf(),
                self.custom_affinity == old(self).custom_affinity,
                start == old(self)@,
                filled(start, n as int, cs@, i as int) == Some(self@),
            decreases cs@.len() - i,
        {
            let ghost before = self@;
            if !self.add_cpu_to_node(NumaIndex(n), CpuIndex(cs[i])) {
                proof {
                    lemma_filled_stops(start, n as int, cs@, i + 1, cs@.len() as int);
                }
                return false;
            }
            i += 1;
        }
        true
    }

    /// Read a policy: nodes separated by `:`, processors by `,`, ranges with `-`.
    pub fn from_string(s: &str) -> (r: Option<NumaConfig>)
        ensures
            (match r {
                Some(c) => {
                    &&& policy_of(vstd::utf8::encode_utf8(s@)) == Some(c@)
                    &&& c.wf()
                    &&& c.custom_affinity
                },
                None => policy_of(vstd::utf8::encode_utf8(s@)).is_none(),
            }),
    {
        let bytes = s.as_bytes();
        let parts = split(bytes, 58);
        let ghost ps = lists::pieces(bytes@, 58);
        let mut c = NumaConfig::empty();
        let mut n: usize = 0;
        let mut total: usize = 0;
        let mut i: usize = 0;
        while i < parts.len()
            invariant
                i <= parts@.len(),
                lists::deep(parts@) == ps,
                ps == lists::pieces(vstd::utf8::encode_utf8(s@), 58),
                c.wf(),
                !c.custom_affinity,
                n <= i,
                total <= MAX_TOTAL_CPUS,
                policy_upto(ps, i as int) == Some((c@, n as int, total as int)),
            decreases parts@.len() - i,
        {
            assert(ps[i as int] == lists::deep(parts@)[i as int]);
            assert(ps.len() == parts@.len());
            let cpus = indices_of_bytes(parts[i].as_slice());
            if cpus.len() > 0 {
                if cpus.len() > MAX_TOTAL_CPUS - total {
                    proof {
                        lemma_policy_stops(ps, i + 1, ps.len() as int);
                    }
                    return None;
                }
                total = total + cpus.len();
                if !c.fill(n, &cpus) {
                    proof {
                        lemma_policy_stops(ps, i + 1, ps.len() as int);
                    }
                    return None;
                }
                n += 1;
            }
            i += 1;
        }
        assert(ps.len() == parts@.len());
        if n == 0 {
            return None;
        }
        c.custom_affinity = true;
        Some(c)
    }
}

proof fn lemma_filled_stops(nodes: Seq<Seq<usize>>, n: int, cs: Seq<usize>, m: int, k: int)
    requires
        0 <= m <= k,
        filled(nodes, n, cs, m).is_none(),
    ensures
        filled(nodes, n, cs, k).is_none(),
    decreases k - m,
{
    if m < k {
        lemma_filled_stops(nodes, n, cs, m, k - 1);
    }
}

/// A run of consecutive numbers ends at `j`.
pub open spec fn run_ends(v: Seq<usize>, j: int) -> bool {
    j + 1 == v.len() || v[j + 1] != v[j] + 1
}

/// Where the run that ends at `j` begins.
pub open spec fn run_start(v: Seq<usize>, j: int) -> int
    decreases j,
{
    if j <= 0 || run_ends(v, j - 1) {
        j
    } else {
        run_start(v, j - 1)
    }
}

/// A run as text: one number, or its first and last.
pub open spec fn run_text(v: Seq<usize>, i: int, j: int) -> Seq<char> {
    if i == j {
        text::decimal(v[j] as nat)
    } else {
        text::decimal(v[i] as nat) + seq!['-'] + text::decimal(v[j] as nat)
    }
}

/// The runs that end within the first `n` numbers, separated by commas.
pub open spec fn runs_text(v: Seq<usize>, n: int) -> Seq<char>
    decreases n,
{
    if n <= 0 {
        Seq::empty()
    } else if run_ends(v, n - 1) {
        proof {
            lemma_run_start(v, n - 1);
        }
        let i = run_start(v, n - 1);
        let before = runs_text(v, i);
        (if i == 0 {
            before
        } else {
            before.push(',')
        }) + run_text(v, i, n - 1)
    } else {
        runs_text(v, n - 1)
    }
}

/// The first `n` nodes as text, separated by colons.
pub open spec fn nodes_text(nodes: Seq<Seq<usize>>, n: int) -> Seq<char>
    decreases n,
{
    if n <= 0 {
        Seq::empty()
    } else {
        (if n == 1 {
            Seq::empty()
        } else {
            nodes_text(nodes, n - 1).push(':')
        }) + runs_text(nodes[n - 1], nodes[n - 1].len() as int)
    }
}

pub proof fn lemma_run_start(v: Seq<usize>, j: int)
    requires
        0 <= j,
    ensures
        0 <= run_start(v, j) <= j,
    decreases j,
{
    if !(j <= 0 || run_ends(v, j - 1)) {
        lemma_run_start(v, j - 1);
    }
}

/// Append the runs of an ascending list.
fn push_runs(out: &mut String, v: &Vec<usize>)
    ensures
        final(out)@ == old(out)@ + runs_text(v@, v@.len() as int),
{
    let ghost head = out@;
    let mut start: usize = 0;
    let mut j: usize = 0;
    assert(head + runs_text(v@, 0) =~= head);
    while j < v.len()
        invariant
            j <= v@.len(),
            start <= j,
            out@ == head + runs_text(v@, start as int),
            j < v@.len() || start == j,
            j < v@.len() ==> run_start(v@, j as int) == start,
            forall|k: int| start <= k < j ==> !#[trigger] run_ends(v@, k),
        decreases v@.len() - j,
    {
        let ends = j + 1 == v.len() || v[j] == usize::MAX || v[j + 1] != v[j] + 1;
        assert(ends == run_ends(v@, j as int));
        if ends {
            let ghost before = out@;
            if start > 0 {
                out.push(',');
            }
            if j == start {
                push_decimal(out, v[j] as u64);
            } else {
                push_decimal(out, v[start] as u64);
                out.push('-');
                push_decimal(out, v[j] as u64);
            }
            assert(out@ =~= head + runs_text(v@, j + 1));
            start = j + 1;
        }
        j += 1;
    }
}

impl NumaConfig {
    /// The configuration in the form that [`NumaConfig::from_string`] reads.
    pub fn to_string_spec(&self) -> (r: String)
        ensures
            r@ == nodes_text(self@, self@.len() as int),
    {
        let mut out = String::new();
        let mut n: usize = 0;
        assert(out@ =~= nodes_text(self@, 0));
        while n < self.nodes.len()
            invariant
                n <= self.nodes@.len(),
                out@ == nodes_text(self@, n as int),
            decreases self.nodes@.len() - n,
        {
            let ghost before = out@;
            if n > 0 {
                out.push(':');
            }
            assert(self@[n as int] == self.nodes@[n as int]@);
            push_runs(&mut out, &self.nodes[n]);
            n += 1;
            assert(out@ =~= nodes_text(self@, n as int));
        }
        out
    }
}

// ---------------------------------------------------------------------------
// Threads
// ---------------------------------------------------------------------------

/// The size of the largest of the first `n` nodes.
pub open spec fn largest_upto(nodes: Seq<Seq<usize>>, n: int) -> int
    decreases n,
{
    if n <= 0 {
        0
    } else if nodes[n - 1].len() > largest_upto(nodes, n - 1) {
        nodes[n - 1].len() as int
    } else {
        largest_upto(nodes, n - 1)
    }
}

/// A node with at most three fifths of the processors of the largest.
pub open spec fn is_small(len: int, largest: int) -> bool {
    largest == 0 || 5 * len <= 3 * largest
}

/// How many of the first `n` nodes are not small.
pub open spec fn large_upto(nodes: Seq<Seq<usize>>, largest: int, n: int) -> int
    decreases n,
{
    if n <= 0 {
        0
    } else if is_small(nodes[n - 1].len() as int, largest) {
        large_upto(nodes, largest, n - 1)
    } else {
        large_upto(nodes, largest, n - 1) + 1
    }
}

/// Whether spreading the threads over the nodes is worth doing: always for a partition set by
/// hand, never for one thread or one node, and otherwise when the threads fill half of the
/// largest node or come to four for every node that is not small.
pub open spec fn worth_binding(nodes: Seq<Seq<usize>>, custom: bool, threads: int) -> bool {
    let n = nodes.len() as int;
    let largest = largest_upto(nodes, n);
    custom || (threads > 1 && n > 1 && (threads > largest / 2 || threads >= 4 * large_upto(
        nodes,
        largest,
        n,
    )))
}

/// Node `a` has `x` threads, node `b` has `y`: the first is filled to a smaller part.
pub open spec fn less_filled(x: int, a: int, y: int, b: int) -> bool {
    x * (if b == 0 {
        1
    } else {
        b
    }) < y * (if a == 0 {
        1
    } else {
        a
    })
}

/// The least filled of the first `n` nodes, the first one where several are.
pub open spec fn least_filled(nodes: Seq<Seq<usize>>, taken: Seq<int>, n: int) -> int
    decreases n,
{
    if n <= 1 {
        0
    } else {
        let k = least_filled(nodes, taken, n - 1);
        if less_filled(
            taken[n - 1],
            nodes[n - 1].len() as int,
            taken[k],
            nodes[k].len() as int,
        ) {
            n - 1
        } else {
            k
        }
    }
}

/// How many of the first `n` threads are on node `k`.
pub open spec fn on_node(spread: Seq<NumaIndex>, k: int, n: int) -> int
    decreases n,
{
    if n <= 0 {
        0
    } else {
        on_node(spread, k, n - 1) + (if spread[n - 1].0 == k {
            1int
        } else {
            0int
        })
    }
}

/// Every thread goes to the node that is least filled by the threads before it.
pub open spec fn well_spread(nodes: Seq<Seq<usize>>, spread: Seq<NumaIndex>) -> bool {
    forall|i: int|
        0 <= i < spread.len() ==> (#[trigger] spread[i]).0 == (if nodes.len() <= 1 {
            0
        } else {
            least_filled(
                nodes,
                Seq::new(nodes.len(), |k: int| on_node(spread, k, i)),
                nodes.len() as int,
            )
        })
}

impl NumaConfig {
    /// Whether spreading the threads over the nodes is worth doing.
    pub fn suggests_binding_threads(&self, num_threads: usize) -> (r: bool)
        requires
            forall|n: int| 0 <= n < self@.len() ==> (#[trigger] self@[n]).len() <= MAX_TOTAL_CPUS,
            self@.len() <= MAX_TOTAL_CPUS,
        ensures
            r == worth_binding(self@, self.custom_affinity, num_threads as int),
    {
        if self.custom_affinity {
            return true;
        }
        if num_threads <= 1 {
            return false;
        }
        let mut largest: usize = 0;
        let mut n: usize = 0;
        while n < self.nodes.len()
            invariant
                n <= self.nodes@.len(),
                largest == largest_upto(self@, n as int),
                largest <= MAX_TOTAL_CPUS,
                forall|k: int|
                    0 <= k < self@.len() ==> (#[trigger] self@[k]).len() <= MAX_TOTAL_CPUS,
            decreases self.nodes@.len() - n,
        {
            assert(self@[n as int] == self.nodes@[n as int]@);
            if self.nodes[n].len() > largest {
                largest = self.nodes[n].len();
            }
            n += 1;
        }
        let mut large: usize = 0;
        let mut m: usize = 0;
        while m < self.nodes.len()
            invariant
                m <= self.nodes@.len(),
                self@.len() <= MAX_TOTAL_CPUS,
                large == large_upto(self@, largest as int, m as int),
                large <= m,
                largest <= MAX_TOTAL_CPUS,
                forall|k: int|
                    0 <= k < self@.len() ==> (#[trigger] self@[k]).len() <= MAX_TOTAL_CPUS,
            decreases self.nodes@.len() - m,
        {
            assert(self@[m as int] == self.nodes@[m as int]@);
            if largest != 0 && 5 * self.nodes[m].len() > 3 * largest {
                large += 1;
            }
            m += 1;
        }
        (num_threads > largest / 2 || num_threads >= large * 4) && self.nodes.len() > 1
    }

    /// The least filled node.
    fn next_node(&self, taken: &Vec<usize>) -> (r: usize)
        requires
            self@.len() == taken@.len(),
            taken@.len() >= 2,
            forall|n: int| 0 <= n < self@.len() ==> (#[trigger] self@[n]).len() <= MAX_TOTAL_CPUS,
        ensures
            r < taken@.len(),
            r == least_filled(
                self@,
                Seq::new(taken@.len(), |k: int| taken@[k] as int),
                self@.len() as int,
            ),
    {
        let ghost t = Seq::new(taken@.len(), |k: int| taken@[k] as int);
        let mut best: usize = 0;
        let mut n: usize = 1;
        while n < taken.len()
            invariant
                1 <= n <= taken@.len(),
                best < n,
                self@.len() == taken@.len(),
                t == Seq::new(taken@.len(), |k: int| taken@[k] as int),
                forall|k: int|
                    0 <= k < self@.len() ==> (#[trigger] self@[k]).len() <= MAX_TOTAL_CPUS,
                best == least_filled(self@, t, n as int),
            decreases taken@.len() - n,
        {
            assert(self@[n as int] == self.nodes@[n as int]@);
            assert(self@[best as int] == self.nodes@[best as int]@);
            let here: u128 = if self.nodes[n].len() == 0 {
                1
            } else {
                self.nodes[n].len() as u128
            };
            let there: u128 = if self.nodes[best].len() == 0 {
                1
            } else {
                self.nodes[best].len() as u128
            };
            let x: u128 = taken[n] as u128;
            let y: u128 = taken[best] as u128;
            assert(x * there <= 0x1_0000_0000_0000_0000 * 0x10_0000 && y * here
                <= 0x1_0000_0000_0000_0000 * 0x10_0000) by (nonlinear_arith)
                requires
                    x <= 0x1_0000_0000_0000_0000,
                    y <= 0x1_0000_0000_0000_0000,
                    here <= 0x10_0000,
                    there <= 0x10_0000,
            ;
            if x * there < y * here {
                best = n;
            }
            n += 1;
        }
        best
    }

    /// Which node each of the threads belongs to.
    pub fn distribute_threads_among_numa_nodes(&self, num_threads: usize) -> (r: Vec<NumaIndex>)
        requires
            forall|n: int| 0 <= n < self@.len() ==> (#[trigger] self@[n]).len() <= MAX_TOTAL_CPUS,
        ensures
            r@.len() == num_threads,
            well_spread(self@, r@),
    {
        let mut r: Vec<NumaIndex> = Vec::new();
        if self.nodes.len() <= 1 {
            while r.len() < num_threads
                invariant
                    r@.len() <= num_threads,
                    forall|i: int| 0 <= i < r@.len() ==> (#[trigger] r@[i]).0 == 0,
                decreases num_threads - r@.len(),
            {
                r.push(NumaIndex(0));
            }
            return r;
        }
        let mut taken: Vec<usize> = Vec::new();
        while taken.len() < self.nodes.len()
            invariant
                taken@.len() <= self.nodes@.len(),
                forall|k: int| 0 <= k < taken@.len() ==> #[trigger] taken@[k] == 0,
            decreases self.nodes@.len() - taken@.len(),
        {
            taken.push(0);
        }
        while r.len() < num_threads
            invariant
                r@.len() <= num_threads,
                self.nodes@.len() > 1,
                taken@.len() == self.nodes@.len(),
                forall|n: int|
                    0 <= n < self@.len() ==> (#[trigger] self@[n]).len() <= MAX_TOTAL_CPUS,
                forall|k: int|
                    0 <= k < taken@.len() ==> #[trigger] taken@[k] == on_node(
                        r@,
                        k,
                        r@.len() as int,
                    ) && taken@[k] <= r@.len(),
                well_spread(self@, r@),
            decreases num_threads - r@.len(),
        {
            let ghost before = r@;
            let ghost counts = taken@;
            let best = self.next_node(&taken);
            taken.set(best, taken[best] + 1);
            r.push(NumaIndex(best));
            proof {
                let m = before.len() as int;
                assert(Seq::new(counts.len(), |k: int| counts[k] as int) =~= Seq::new(
                    self@.len(),
                    |k: int| on_node(before, k, m),
                ));
                assert forall|k: int, i: int| 0 <= i <= m implies #[trigger] on_node(r@, k, i)
                    == on_node(before, k, i) by {
                    lemma_on_node(before, r@, k, i);
                }
                assert forall|i: int| 0 <= i < r@.len() implies (#[trigger] r@[i]).0
                    == least_filled(
                    self@,
                    Seq::new(self@.len(), |k: int| on_node(r@, k, i)),
                    self@.len() as int,
                ) by {
                    assert(Seq::new(self@.len(), |k: int| on_node(r@, k, i)) =~= Seq::new(
                        self@.len(),
                        |k: int| on_node(before, k, i),
                    ));
                    if i < m {
                        assert(r@[i] == before[i]);
                    }
                }
                assert forall|k: int| 0 <= k < taken@.len() implies #[trigger] taken@[k] == on_node(
                    r@,
                    k,
                    m + 1,
                ) && taken@[k] <= m + 1 by {
                    assert(counts[k] == on_node(before, k, m));
                    assert(on_node(r@, k, m) == on_node(before, k, m));
                }
            }
        }
        r
    }
}

proof fn lemma_on_node(a: Seq<NumaIndex>, b: Seq<NumaIndex>, k: int, n: int)
    requires
        0 <= n <= a.len() <= b.len(),
        forall|i: int| 0 <= i < a.len() ==> #[trigger] a[i] == b[i],
    ensures
        on_node(a, k, n) == on_node(b, k, n),
    decreases n,
{
    if n > 0 {
        lemma_on_node(a, b, k, n - 1);
        assert(a[n - 1] == b[n - 1]);
    }
}

// ---------------------------------------------------------------------------
// The machine's own topology
// ---------------------------------------------------------------------------

/// What the machine reports about itself.
#[derive(Debug)]
pub struct SystemListing {
    /// The processors that this process may run on, where they are known.
    pub affinity: Option<Vec<usize>>,
    /// The nodes that are online, where the machine reports them.
    pub online: Option<Vec<usize>>,
    /// The processors of each online node, in the same order; none where a list is missing.
    pub node_cpus: Vec<Option<Vec<usize>>>,
    /// How many processors there are, for a machine that reports no nodes.
    pub parallelism: usize,
    /// For processors that report them, those that share their cache.
    pub siblings: Vec<(usize, Vec<usize>)>,
}

/// The processor may be used.
pub open spec fn allowed(affinity: Option<Seq<usize>>, c: usize) -> bool {
    match affinity {
        None => true,
        Some(v) => v.contains(c),
    }
}

/// The first `m` processors that may be used, put into node `n` where they have no node.
pub open spec fn joined(
    nodes: Seq<Seq<usize>>,
    n: int,
    cs: Seq<usize>,
    affinity: Option<Seq<usize>>,
    m: int,
) -> Seq<Seq<usize>>
    decreases m,
{
    if m <= 0 {
        nodes
    } else {
        let v = joined(nodes, n, cs, affinity, m - 1);
        if allowed(affinity, cs[m - 1]) {
            put(v, n, cs[m - 1])
        } else {
            v
        }
    }
}

/// The first `m` online nodes; none when the processors of one are not listed.
pub open spec fn online_upto(
    online: Seq<usize>,
    node_cpus: Seq<Option<Vec<usize>>>,
    affinity: Option<Seq<usize>>,
    m: int,
) -> Option<Seq<Seq<usize>>>
    decreases m,
{
    if m <= 0 {
        Some(Seq::empty())
    } else {
        match online_upto(online, node_cpus, affinity, m - 1) {
            None => None,
            Some(v) => if m - 1 < node_cpus.len() {
                match node_cpus[m - 1] {
                    None => None,
                    Some(cs) => Some(
                        joined(v, online[m - 1] as int, cs@, affinity, cs@.len() as int),
                    ),
                }
            } else {
                None
            },
        }
    }
}

/// The first `n` numbers.
pub open spec fn counting(n: int) -> Seq<usize> {
    Seq::new(n as nat, |i: int| i as usize)
}

/// The contents of an optional list.
pub open spec fn listed(v: Option<Vec<usize>>) -> Option<Seq<usize>> {
    match v {
        None => None,
        Some(x) => Some(x@),
    }
}

/// The system's own nodes. Where it does not report them, one node with every processor.
pub open spec fn system_nodes(l: &SystemListing, affinity: Option<Seq<usize>>) -> Seq<Seq<usize>> {
    let reported = match l.online {
        None => None,
        Some(online) => online_upto(online@, l.node_cpus@, affinity, online@.len() as int),
    };
    match reported {
        Some(v) => v,
        None => joined(
            Seq::empty(),
            0,
            counting(l.parallelism as int),
            affinity,
            l.parallelism as int,
        ),
    }
}

/// The first `n` nodes without the empty ones.
pub open spec fn nonempty_upto(nodes: Seq<Seq<usize>>, n: int) -> Seq<Seq<usize>>
    decreases n,
{
    if n <= 0 {
        Seq::empty()
    } else if nodes[n - 1].len() == 0 {
        nonempty_upto(nodes, n - 1)
    } else {
        nonempty_upto(nodes, n - 1).push(nodes[n - 1])
    }
}

/// Whether a processor may be used.
fn may_use(affinity: &Option<Vec<usize>>, c: usize) -> (r: bool)
    ensures
        r == allowed(listed(*affinity), c),
{
    match affinity {
        None => true,
        Some(v) => {
            let mut i: usize = 0;
            while i < v.len()
                invariant
                    i <= v@.len(),
                    listed(*affinity) == Some(v@),
                    forall|k: int| 0 <= k < i ==> #[trigger] v@[k] != c,
                decreases v@.len() - i,
            {
                if v[i] == c {
                    return true;
                }
                i += 1;
            }
            false
        },
    }
}

impl NumaConfig {
    /// Put the processors of a list that may be used into one node.
    fn join(&mut self, n: usize, cs: &Vec<usize>, affinity: &Option<Vec<usize>>)
        requires
            old(self).wf(),
            n < usize::MAX,
        ensures
            final(self).wf(),
            final(self).custom_affinity == old(self).custom_affinity,
            final(self)@ == joined(
                old(self)@,
                n as int,
                cs@,
                listed(*affinity),
                cs@.len() as int,
            ),
    {
        let ghost start = self@;
        let mut i: usize = 0;
        while i < cs.len()
            invariant
                i <= cs@.len(),
                n < usize::MAX,
                self.wf(),
                self.custom_affinity == old(self).custom_affinity,
                self@ == joined(start, n as int, cs@, listed(*affinity), i as int),
            decreases cs@.len() - i,
        {
            if may_use(affinity, cs[i]) {
                let _ = self.add_cpu_to_node(NumaIndex(n), CpuIndex(cs[i]));
            }
            i += 1;
        }
    }

    /// One node with processors numbered from zero.
    pub fn one_node(count: usize) -> (r: NumaConfig)
        ensures
            r.wf(),
            !r.custom_affinity,
            r@ == joined(Seq::empty(), 0, counting(count as int), None, count as int),
    {
        let none: Option<Vec<usize>> = None;
        NumaConfig::numbered(count, &none)
    }

    fn numbered(count: usize, affinity: &Option<Vec<usize>>) -> (r: NumaConfig)
        ensures
            r.wf(),
            !r.custom_affinity,
            r@ == joined(
                Seq::empty(),
                0,
                counting(count as int),
                listed(*affinity),
                count as int,
            ),
    {
        let mut r = NumaConfig::empty();
        let mut i: usize = 0;
        while i < count
            invariant
                i <= count,
                r.wf(),
                !r.custom_affinity,
                r@ == joined(
                    Seq::empty(),
                    0,
                    counting(count as int),
                    listed(*affinity),
                    i as int,
                ),
            decreases count - i,
        {
            assert(counting(count as int)[i as int] == i);
            if may_use(affinity, i) {
                let _ = r.add_cpu_to_node(NumaIndex(0), CpuIndex(i));
            }
            i += 1;
        }
        r
    }

    /// The nodes that the machine reports, if it reports every one of them.
    fn reported(l: &SystemListing, affinity: &Option<Vec<usize>>) -> (r: Option<NumaConfig>)
        requires
            l.online matches Some(online) ==> forall|i: int|
                0 <= i < online@.len() ==> #[trigger] online@[i] < usize::MAX,
        ensures
            (match r {
                Some(c) => c.wf() && !c.custom_affinity && (l.online matches Some(online)
                    && online_upto(
                    online@,
                    l.node_cpus@,
                    listed(*affinity),
                    online@.len() as int,
                ) == Some(c@)),
                None => l.online matches Some(online) ==> online_upto(
                    online@,
                    l.node_cpus@,
                    listed(*affinity),
                    online@.len() as int,
                ).is_none(),
            }),
    {
        match &l.online {
            None => None,
            Some(online) => {
                let mut c = NumaConfig::empty();
                let mut i: usize = 0;
                while i < online.len()
                    invariant
                        i <= online@.len(),
                        listed(l.online) == Some(online@),
                        forall|k: int| 0 <= k < online@.len() ==> #[trigger] online@[k] < usize::MAX,
                        c.wf(),
                        !c.custom_affinity,
                        online_upto(online@, l.node_cpus@, listed(*affinity), i as int) == Some(
                            c@,
                        ),
                    decreases online@.len() - i,
                {
                    if i >= l.node_cpus.len() {
                        proof {
                            lemma_online_stops(
                                online@,
                                l.node_cpus@,
                                listed(*affinity),
                                i + 1,
                                online@.len() as int,
                            );
                        }
                        return None;
                    }
                    match &l.node_cpus[i] {
                        None => {
                            proof {
                                lemma_online_stops(
                                    online@,
                                    l.node_cpus@,
                                    listed(*affinity),
                                    i + 1,
                                    online@.len() as int,
                                );
                            }
                            return None;
                        },
                        Some(cs) => {
                            c.join(online[i], cs, affinity);
                        },
                    }
                    i += 1;
                }
                Some(c)
            },
        }
    }

    /// Drop the nodes that hold nothing.
    fn remove_empty_numa_nodes(self) -> (r: NumaConfig)
        requires
            self.wf(),
        ensures
            r.wf(),
            r.custom_affinity == self.custom_affinity,
            r@ == nonempty_upto(self@, self@.len() as int),
    {
        let mut kept: Vec<Vec<usize>> = Vec::new();
        let mut i: usize = 0;
        assert(deep(kept@) =~= nonempty_upto(self@, 0));
        while i < self.nodes.len()
            invariant
                i <= self.nodes@.len(),
                deep(kept@) == nonempty_upto(self@, i as int),
            decreases self.nodes@.len() - i,
        {
            let ghost before = deep(kept@);
            assert(self@[i as int] == self.nodes@[i as int]@);
            if self.nodes[i].len() > 0 {
                let one = copied(&self.nodes[i]);
                let ghost o = one@;
                kept.push(one);
                assert(deep(kept@) =~= before.push(o));
            }
            i += 1;
        }
        proof {
            lemma_nonempty(self@, self@.len() as int);
        }
        NumaConfig { nodes: kept, custom_affinity: self.custom_affinity }
    }
}

/// A copy of a list.
fn copied(v: &Vec<usize>) -> (r: Vec<usize>)
    ensures
        r@ == v@,
{
    let mut r: Vec<usize> = Vec::new();
    while r.len() < v.len()
        invariant
            r@.len() <= v@.len(),
            r@ == v@.subrange(0, r@.len() as int),
        decreases v@.len() - r@.len(),
    {
        let x = v[r.len()];
        r.push(x);
        assert(r@ =~= v@.subrange(0, r@.len() as int));
    }
    assert(r@ =~= v@);
    r
}

proof fn lemma_online_stops(
    online: Seq<usize>,
    node_cpus: Seq<Option<Vec<usize>>>,
    affinity: Option<Seq<usize>>,
    m: int,
    n: int,
)
    requires
        0 <= m <= n,
        online_upto(online, node_cpus, affinity, m).is_none(),
    ensures
        online_upto(online, node_cpus, affinity, n).is_none(),
    decreases n - m,
{
    if m < n {
        lemma_online_stops(online, node_cpus, affinity, m, n - 1);
    }
}

/// The list is one of the first `n` nodes.
pub open spec fn among(nodes: Seq<Seq<usize>>, n: int, v: Seq<usize>) -> bool {
    exists|m: int| 0 <= m < n && #[trigger] nodes[m] == v
}

/// Dropping the empty nodes of a partition leaves a partition with no empty node.
pub proof fn lemma_nonempty(nodes: Seq<Seq<usize>>, n: int)
    requires
        partition(nodes),
        0 <= n <= nodes.len(),
    ensures
        partition(nonempty_upto(nodes, n)),
        forall|k: int|
            0 <= k < nonempty_upto(nodes, n).len() ==> (#[trigger] nonempty_upto(nodes, n)[k]).len()
                > 0,
        forall|k: int|
            0 <= k < nonempty_upto(nodes, n).len() ==> among(
                nodes,
                n,
                #[trigger] nonempty_upto(nodes, n)[k],
            ),
    decreases n,
{
    if n > 0 {
        lemma_nonempty(nodes, n - 1);
        let p = nonempty_upto(nodes, n - 1);
        let r = nonempty_upto(nodes, n);
        if nodes[n - 1].len() > 0 {
            assert forall|k: int| 0 <= k < r.len() implies among(nodes, n, #[trigger] r[k]) by {
                if k < p.len() {
                    assert(r[k] == p[k]);
                    assert(among(nodes, n - 1, p[k]));
                    let m = choose|m: int| 0 <= m < n - 1 && #[trigger] nodes[m] == p[k];
                    assert(nodes[m] == r[k]);
                } else {
                    assert(nodes[n - 1] == r[k]);
                }
            }
            assert forall|k: int| 0 <= k < r.len() implies (#[trigger] r[k]).len() > 0 by {
                if k < p.len() {
                    assert(r[k] == p[k]);
                }
            }
            assert forall|k: int| 0 <= k < r.len() implies ascending(#[trigger] r[k]) by {
                if k < p.len() {
                    assert(r[k] == p[k]);
                }
            }
            assert forall|a: int, b: int, c: usize|
                0 <= a < r.len() && 0 <= b < r.len() && #[trigger] r[a].contains(c)
                    && #[trigger] r[b].contains(c) implies a == b by {
                if a < p.len() && b < p.len() {
                    assert(p[a].contains(c) && p[b].contains(c));
                } else if a < p.len() {
                    assert(among(nodes, n - 1, p[a]));
                    let m = choose|m: int| 0 <= m < n - 1 && #[trigger] nodes[m] == p[a];
                    assert(nodes[m].contains(c) && nodes[n - 1].contains(c));
                } else if b < p.len() {
                    assert(among(nodes, n - 1, p[b]));
                    let m = choose|m: int| 0 <= m < n - 1 && #[trigger] nodes[m] == p[b];
                    assert(nodes[m].contains(c) && nodes[n - 1].contains(c));
                }
            }
        }
    }
}

// ---------------------------------------------------------------------------
// Caches
// ---------------------------------------------------------------------------

/// The processors that share one cache, and the system node that they belong to.
#[derive(Debug)]
pub struct L3Domain {
    pub system_node: usize,
    pub cpus: Vec<usize>,
}

/// The contents of a list of domains.
pub open spec fn domain_view(v: Seq<L3Domain>) -> Seq<(int, Seq<usize>)> {
    Seq::new(v.len(), |i: int| (v[i].system_node as int, v[i].cpus@))
}

/// The processors of the first `n` nodes, ascending.
pub open spec fn every_upto(nodes: Seq<Seq<usize>>, n: int) -> Seq<usize>
    decreases n,
{
    if n <= 0 {
        Seq::empty()
    } else {
        placed_upto(every_upto(nodes, n - 1), nodes[n - 1], nodes[n - 1].len() as int)
    }
}

/// The first of the nodes from `n` on that holds the processor.
pub open spec fn node_from(nodes: Seq<Seq<usize>>, c: usize, n: int) -> int
    decreases nodes.len() - n,
{
    if n >= nodes.len() || nodes[n].contains(c) {
        n
    } else {
        node_from(nodes, c, n + 1)
    }
}

/// What a processor reports, from the `n`-th report on.
pub open spec fn shared_from(siblings: Seq<(usize, Vec<usize>)>, c: usize, n: int) -> Option<
    Seq<usize>,
>
    decreases siblings.len() - n,
{
    if n >= siblings.len() {
        None
    } else if siblings[n].0 == c {
        Some(siblings[n].1@)
    } else {
        shared_from(siblings, c, n + 1)
    }
}

/// The first `n` processors of a list that may be used, ascending.
pub open spec fn usable_upto(l: Seq<usize>, affinity: Option<Seq<usize>>, n: int) -> Seq<usize>
    decreases n,
{
    if n <= 0 {
        Seq::empty()
    } else if allowed(affinity, l[n - 1]) {
        placed(usable_upto(l, affinity, n - 1), l[n - 1])
    } else {
        usable_upto(l, affinity, n - 1)
    }
}

/// The domains that the first `m` processors make, and the processors seen in them. A
/// processor that was seen in a domain makes none of its own.
pub open spec fn domains_upto(
    every: Seq<usize>,
    nodes: Seq<Seq<usize>>,
    siblings: Seq<(usize, Vec<usize>)>,
    affinity: Option<Seq<usize>>,
    m: int,
) -> (Seq<(int, Seq<usize>)>, Seq<usize>)
    decreases m,
{
    if m <= 0 {
        (Seq::empty(), Seq::empty())
    } else {
        let (ds, seen) = domains_upto(every, nodes, siblings, affinity, m - 1);
        let c = every[m - 1];
        if seen.contains(c) {
            (ds, seen)
        } else {
            match shared_from(siblings, c, 0) {
                None => (ds, seen),
                Some(l) => {
                    let cs = usable_upto(l, affinity, l.len() as int);
                    if cs.len() > 0 {
                        (ds.push((node_from(nodes, c, 0), cs)), seen + l)
                    } else {
                        (ds, seen + l)
                    }
                },
            }
        }
    }
}

/// The system nodes of the first `n` domains, ascending.
pub open spec fn systems_upto(ds: Seq<(int, Seq<usize>)>, n: int) -> Seq<usize>
    decreases n,
{
    if n <= 0 {
        Seq::empty()
    } else {
        placed(systems_upto(ds, n - 1), ds[n - 1].0 as usize)
    }
}

/// The bundles that the first `n` domains make on one system node: a domain joins the bundle
/// before it where the two hold at most `size` processors.
pub open spec fn bundles_upto(ds: Seq<(int, Seq<usize>)>, node: int, size: int, n: int) -> Seq<
    Seq<usize>,
>
    decreases n,
{
    if n <= 0 {
        Seq::empty()
    } else {
        let g = bundles_upto(ds, node, size, n - 1);
        let d = ds[n - 1].1;
        if ds[n - 1].0 != node {
            g
        } else if g.len() > 0 && g.last().len() + d.len() <= size {
            g.update(g.len() - 1, placed_upto(g.last(), d, d.len() as int))
        } else {
            g.push(d)
        }
    }
}

/// The bundles of the first `n` system nodes.
pub open spec fn all_bundles(
    ds: Seq<(int, Seq<usize>)>,
    systems: Seq<usize>,
    size: int,
    n: int,
) -> Seq<Seq<usize>>
    decreases n,
{
    if n <= 0 {
        Seq::empty()
    } else {
        all_bundles(ds, systems, size, n - 1) + bundles_upto(
            ds,
            systems[n - 1] as int,
            size,
            ds.len() as int,
        )
    }
}

/// One node for each of the first `n` bundles.
pub open spec fn bundle_nodes(bundles: Seq<Seq<usize>>, n: int) -> Seq<Seq<usize>>
    decreases n,
{
    if n <= 0 {
        Seq::empty()
    } else {
        joined(
            bundle_nodes(bundles, n - 1),
            n - 1,
            bundles[n - 1],
            None,
            bundles[n - 1].len() as int,
        )
    }
}

/// The nodes that domains make.
pub open spec fn l3_nodes(ds: Seq<(int, Seq<usize>)>, size: int) -> Seq<Seq<usize>> {
    let systems = systems_upto(ds, ds.len() as int);
    let bundles = all_bundles(ds, systems, size, systems.len() as int);
    bundle_nodes(bundles, bundles.len() as int)
}

/// The domains of a machine.
pub open spec fn l3_domains(l: &SystemListing, affinity: Option<Seq<usize>>) -> Seq<
    (int, Seq<usize>),
> {
    let raw = system_nodes(l, affinity);
    let nodes = nonempty_upto(raw, raw.len() as int);
    let every = every_upto(nodes, nodes.len() as int);
    domains_upto(every, nodes, l.siblings@, affinity, every.len() as int).0
}

/// The partition of a machine under a policy.
pub open spec fn machine_nodes(
    l: &SystemListing,
    policy: AutoPolicy,
    affinity: Option<Seq<usize>>,
) -> Seq<Seq<usize>> {
    let size = match policy {
        AutoPolicy::BundledL3 { bundle_size } => bundle_size as int,
        _ => 0,
    };
    let ds = l3_domains(l, affinity);
    let nodes = if policy == AutoPolicy::System || ds.len() == 0 {
        system_nodes(l, affinity)
    } else {
        l3_nodes(ds, size)
    };
    nonempty_upto(nodes, nodes.len() as int)
}

proof fn lemma_placed_upto(v: Seq<usize>, cs: Seq<usize>, n: int)
    requires
        ascending(v),
        0 <= n <= cs.len(),
    ensures
        ascending(placed_upto(v, cs, n)),
    decreases n,
{
    if n > 0 {
        lemma_placed_upto(v, cs, n - 1);
        lemma_placed(placed_upto(v, cs, n - 1), cs[n - 1]);
    }
}

/// Put every number of a list into an ascending one.
fn place_all(v: &mut Vec<usize>, cs: &Vec<usize>)
    requires
        ascending(old(v)@),
    ensures
        final(v)@ == placed_upto(old(v)@, cs@, cs@.len() as int),
        ascending(final(v)@),
{
    let ghost start = v@;
    let mut i: usize = 0;
    while i < cs.len()
        invariant
            i <= cs@.len(),
            ascending(v@),
            v@ == placed_upto(start, cs@, i as int),
        decreases cs@.len() - i,
    {
        place(v, cs[i]);
        i += 1;
    }
}

/// What a processor reports.
fn shared<'a>(siblings: &'a Vec<(usize, Vec<usize>)>, c: usize) -> (r: Option<&'a Vec<usize>>)
    ensures
        (match r {
            Some(v) => shared_from(siblings@, c, 0) == Some(v@),
            None => shared_from(siblings@, c, 0).is_none(),
        }),
{
    let mut i: usize = 0;
    while i < siblings.len()
        invariant
            i <= siblings@.len(),
            shared_from(siblings@, c, 0) == shared_from(siblings@, c, i as int),
        decreases siblings@.len() - i,
    {
        if siblings[i].0 == c {
            return Some(&siblings[i].1);
        }
        i += 1;
    }
    None
}

/// The processors of a list that may be used.
fn usable(l: &Vec<usize>, affinity: &Option<Vec<usize>>) -> (r: Vec<usize>)
    ensures
        r@ == usable_upto(l@, listed(*affinity), l@.len() as int),
{
    let mut r: Vec<usize> = Vec::new();
    let mut i: usize = 0;
    while i < l.len()
        invariant
            i <= l@.len(),
            ascending(r@),
            r@ == usable_upto(l@, listed(*affinity), i as int),
        decreases l@.len() - i,
    {
        if may_use(affinity, l[i]) {
            place(&mut r, l[i]);
        }
        i += 1;
    }
    r
}

/// Whether a list holds a number.
fn member(v: &Vec<usize>, c: usize) -> (r: bool)
    ensures
        r == v@.contains(c),
{
    let mut i: usize = 0;
    while i < v.len()
        invariant
            i <= v@.len(),
            forall|k: int| 0 <= k < i ==> #[trigger] v@[k] != c,
        decreases v@.len() - i,
    {
        if v[i] == c {
            return true;
        }
        i += 1;
    }
    false
}

impl NumaConfig {
    /// The first node that holds a processor.
    fn node_of(&self, c: usize) -> (r: usize)
        requires
            self.wf(),
        ensures
            r == node_from(self@, c, 0),
    {
        let mut n: usize = 0;
        while n < self.nodes.len()
            invariant
                n <= self.nodes@.len(),
                self.wf(),
                node_from(self@, c, 0) == node_from(self@, c, n as int),
            decreases self.nodes@.len() - n,
        {
            assert(self@[n as int] == self.nodes@[n as int]@);
            if holds(&self.nodes[n], c) {
                return n;
            }
            n += 1;
        }
        n
    }

    /// Every processor, ascending.
    fn every(&self) -> (r: Vec<usize>)
        ensures
            r@ == every_upto(self@, self@.len() as int),
    {
        let mut r: Vec<usize> = Vec::new();
        let mut n: usize = 0;
        while n < self.nodes.len()
            invariant
                n <= self.nodes@.len(),
                ascending(r@),
                r@ == every_upto(self@, n as int),
            decreases self.nodes@.len() - n,
        {
            assert(self@[n as int] == self.nodes@[n as int]@);
            place_all(&mut r, &self.nodes[n]);
            n += 1;
        }
        r
    }

    /// The domains that the machine's caches make.
    fn domains(&self, l: &SystemListing, affinity: &Option<Vec<usize>>) -> (r: Vec<L3Domain>)
        requires
            self.wf(),
        ensures
            ({
                let every = every_upto(self@, self@.len() as int);
                domain_view(r@) == domains_upto(
                    every,
                    self@,
                    l.siblings@,
                    listed(*affinity),
                    every.len() as int,
                ).0
            }),
    {
        let every = self.every();
        let mut ds: Vec<L3Domain> = Vec::new();
        let mut seen: Vec<usize> = Vec::new();
        let mut i: usize = 0;
        assert(domain_view(ds@) =~= Seq::empty());
        while i < every.len()
            invariant
                i <= every@.len(),
                self.wf(),
                (domain_view(ds@), seen@) == domains_upto(
                    every@,
                    self@,
                    l.siblings@,
                    listed(*affinity),
                    i as int,
                ),
            decreases every@.len() - i,
        {
            let c = every[i];
            let ghost before = domain_view(ds@);
            if !member(&seen, c) {
                match shared(&l.siblings, c) {
                    None => {},
                    Some(list) => {
                        let cpus = usable(list, affinity);
                        let mut more = copied(list);
                        seen.append(&mut more);
                        if cpus.len() > 0 {
                            let ghost cs = cpus@;
                            let system_node = self.node_of(c);
                            ds.push(L3Domain { system_node, cpus });
                            assert(domain_view(ds@) =~= before.push((system_node as int, cs)));
                        }
                    },
                }
            }
            i += 1;
        }
        ds
    }

    /// The bundles of one system node, as nodes behind those that are there.
    fn push_bundles(ds: &Vec<L3Domain>, node: usize, size: usize, out: &mut Vec<Vec<usize>>)
        requires
            forall|i: int| 0 <= i < ds@.len() ==> ascending((#[trigger] ds@[i]).cpus@),
            forall|i: int| 0 <= i < ds@.len() ==> (#[trigger] ds@[i]).cpus@.len() <= 0x1000_0000,
        ensures
            deep(final(out)@) == deep(old(out)@) + bundles_upto(
                domain_view(ds@),
                node as int,
                size as int,
                ds@.len() as int,
            ),
    {
        let ghost view = domain_view(ds@);
        let mut g: Vec<Vec<usize>> = Vec::new();
        let mut i: usize = 0;
        assert(deep(g@) =~= Seq::empty());
        while i < ds.len()
            invariant
                i <= ds@.len(),
                view == domain_view(ds@),
                forall|k: int| 0 <= k < ds@.len() ==> ascending((#[trigger] ds@[k]).cpus@),
                forall|k: int|
                    0 <= k < ds@.len() ==> (#[trigger] ds@[k]).cpus@.len() <= 0x1000_0000,
                forall|k: int| 0 <= k < g@.len() ==> ascending((#[trigger] g@[k])@),
                deep(g@) == bundles_upto(view, node as int, size as int, i as int),
            decreases ds@.len() - i,
        {
            let ghost before = deep(g@);
            assert(view[i as int] == (ds@[i as int].system_node as int, ds@[i as int].cpus@));
            if ds[i].system_node == node {
                let n = g.len();
                let joins = n > 0 && g[n - 1].len() <= size && ds[i].cpus.len() <= size - g[n
                    - 1].len();
                if n > 0 {
                    assert(before.last() == g@[n - 1]@);
                }
                if joins {
                    place_all(&mut g[n - 1], &ds[i].cpus);
                    assert(deep(g@) =~= before.update(
                        n - 1,
                        placed_upto(before.last(), ds@[i as int].cpus@, ds@[i as int].cpus@.len() as int),
                    ));
                } else {
                    let one = copied(&ds[i].cpus);
                    let ghost o = one@;
                    g.push(one);
                    assert(deep(g@) =~= before.push(o));
                }
            }
            i += 1;
        }
        let ghost start = deep(out@);
        let ghost made = deep(g@);
        let ghost gv = g@;
        let ghost ov = out@;
        out.append(&mut g);
        assert(out@ =~= ov + gv);
        assert(deep(out@) =~= start + made);
    }

    /// Group the domains into nodes.
    fn from_l3_info(ds: &Vec<L3Domain>, size: usize) -> (r: NumaConfig)
        requires
            forall|i: int| 0 <= i < ds@.len() ==> ascending((#[trigger] ds@[i]).cpus@),
            forall|i: int| 0 <= i < ds@.len() ==> (#[trigger] ds@[i]).cpus@.len() <= 0x1000_0000,
        ensures
            r.wf(),
            !r.custom_affinity,
            r@ == l3_nodes(domain_view(ds@), size as int),
    {
        let ghost view = domain_view(ds@);
        let mut systems: Vec<usize> = Vec::new();
        let mut i: usize = 0;
        while i < ds.len()
            invariant
                i <= ds@.len(),
                view == domain_view(ds@),
                ascending(systems@),
                systems@ == systems_upto(view, i as int),
            decreases ds@.len() - i,
        {
            assert(view[i as int].0 == ds@[i as int].system_node);
            place(&mut systems, ds[i].system_node);
            i += 1;
        }
        let mut bundles: Vec<Vec<usize>> = Vec::new();
        let mut k: usize = 0;
        assert(deep(bundles@) =~= Seq::empty());
        while k < systems.len()
            invariant
                k <= systems@.len(),
                view == domain_view(ds@),
                forall|i: int| 0 <= i < ds@.len() ==> ascending((#[trigger] ds@[i]).cpus@),
                forall|i: int|
                    0 <= i < ds@.len() ==> (#[trigger] ds@[i]).cpus@.len() <= 0x1000_0000,
                deep(bundles@) == all_bundles(view, systems@, size as int, k as int),
            decreases systems@.len() - k,
        {
            NumaConfig::push_bundles(ds, systems[k], size, &mut bundles);
            k += 1;
        }
        let ghost bv = deep(bundles@);
        let mut c = NumaConfig::empty();
        let none: Option<Vec<usize>> = None;
        let mut n: usize = 0;
        while n < bundles.len()
            invariant
                n <= bundles@.len(),
                bv == deep(bundles@),
                none is None,
                c.wf(),
                !c.custom_affinity,
                c@ == bundle_nodes(bv, n as int),
            decreases bundles@.len() - n,
        {
            assert(bv[n as int] == bundles@[n as int]@);
            c.join(n, &bundles[n], &none);
            n += 1;
        }
        c
    }

    /// The partition of the machine under a policy. With `respect_process_affinity` false the
    /// whole machine counts, although this process may not use all of it, and the result is
    /// marked as not the system's own.
    pub fn from_system(policy: AutoPolicy, respect_process_affinity: bool, l: &SystemListing) -> (r:
        NumaConfig)
        requires
            l.online matches Some(online) ==> forall|i: int|
                0 <= i < online@.len() ==> #[trigger] online@[i] < usize::MAX,
            forall|i: int|
                0 <= i < l.siblings@.len() ==> (#[trigger] l.siblings@[i]).1@.len() <= 0x1000_0000,
        ensures
            r.wf(),
            r.custom_affinity == !respect_process_affinity,
            r@ == machine_nodes(
                l,
                policy,
                if respect_process_affinity {
                    listed(l.affinity)
                } else {
                    None
                },
            ),
            forall|n: int| 0 <= n < r@.len() ==> (#[trigger] r@[n]).len() > 0,
    {
        let affinity: Option<Vec<usize>> = if respect_process_affinity {
            match &l.affinity {
                Some(v) => Some(copied(v)),
                None => None,
            }
        } else {
            None
        };
        let ghost aff = listed(affinity);
        let system = match NumaConfig::reported(l, &affinity) {
            Some(c) => c,
            None => NumaConfig::numbered(l.parallelism, &affinity),
        };
        assert(system@ == system_nodes(l, aff));
        let whole = match policy {
            AutoPolicy::System => system.remove_empty_numa_nodes(),
            _ => {
                let size: usize = match policy {
                    AutoPolicy::BundledL3 { bundle_size } => bundle_size,
                    _ => 0,
                };
                let nodes = system.remove_empty_numa_nodes();
                let ds = nodes.domains(l, &affinity);
                assert(domain_view(ds@) == l3_domains(l, aff));
                if ds.len() == 0 {
                    nodes
                } else {
                    proof {
                        let every = every_upto(nodes@, nodes@.len() as int);
                        lemma_domains(every, nodes@, l.siblings@, aff, every.len() as int);
                        assert forall|i: int| 0 <= i < ds@.len() implies ascending(
                            (#[trigger] ds@[i]).cpus@,
                        ) && ds@[i].cpus@.len() <= 0x1000_0000 by {
                            assert(domain_view(ds@)[i].1 == ds@[i].cpus@);
                        }
                    }
                    NumaConfig::from_l3_info(&ds, size).remove_empty_numa_nodes()
                }
            },
        };
        proof {
            let raw = if policy == AutoPolicy::System || l3_domains(l, aff).len() == 0 {
                system_nodes(l, aff)
            } else {
                l3_nodes(
                    l3_domains(l, aff),
                    match policy {
                        AutoPolicy::BundledL3 { bundle_size } => bundle_size as int,
                        _ => 0,
                    },
                )
            };
            assert(whole@ == nonempty_upto(raw, raw.len() as int));
            lemma_all_nonempty(raw, raw.len() as int);
        }
        NumaConfig { nodes: whole.nodes, custom_affinity: !respect_process_affinity }
    }
}

proof fn lemma_all_nonempty(nodes: Seq<Seq<usize>>, n: int)
    ensures
        forall|k: int|
            0 <= k < nonempty_upto(nodes, n).len() ==> (#[trigger] nonempty_upto(nodes, n)[k]).len()
                > 0,
    decreases n,
{
    if n > 0 {
        lemma_all_nonempty(nodes, n - 1);
        let p = nonempty_upto(nodes, n - 1);
        assert forall|k: int| 0 <= k < nonempty_upto(nodes, n).len() implies (
        #[trigger] nonempty_upto(nodes, n)[k]).len() > 0 by {
            if k < p.len() {
                assert(nonempty_upto(nodes, n)[k] == p[k]);
            }
        }
    }
}

proof fn lemma_usable(l: Seq<usize>, affinity: Option<Seq<usize>>, n: int)
    requires
        0 <= n <= l.len(),
    ensures
        ascending(usable_upto(l, affinity, n)),
        usable_upto(l, affinity, n).len() <= n,
    decreases n,
{
    if n > 0 {
        lemma_usable(l, affinity, n - 1);
        lemma_placed(usable_upto(l, affinity, n - 1), l[n - 1]);
    }
}

proof fn lemma_shared(siblings: Seq<(usize, Vec<usize>)>, c: usize, n: int)
    requires
        0 <= n,
        forall|i: int| 0 <= i < siblings.len() ==> (#[trigger] siblings[i]).1@.len() <= 0x1000_0000,
    ensures
        shared_from(siblings, c, n) matches Some(l) ==> l.len() <= 0x1000_0000,
    decreases siblings.len() - n,
{
    if n < siblings.len() {
        lemma_shared(siblings, c, n + 1);
    }
}

proof fn lemma_domains(
    every: Seq<usize>,
    nodes: Seq<Seq<usize>>,
    siblings: Seq<(usize, Vec<usize>)>,
    affinity: Option<Seq<usize>>,
    m: int,
)
    requires
        forall|i: int| 0 <= i < siblings.len() ==> (#[trigger] siblings[i]).1@.len() <= 0x1000_0000,
    ensures
        forall|i: int|
            0 <= i < domains_upto(every, nodes, siblings, affinity, m).0.len() ==> ascending(
                (#[trigger] domains_upto(every, nodes, siblings, affinity, m).0[i]).1,
            ) && domains_upto(every, nodes, siblings, affinity, m).0[i].1.len() <= 0x1000_0000,
    decreases m,
{
    if m > 0 {
        lemma_domains(every, nodes, siblings, affinity, m - 1);
        let c = every[m - 1];
        lemma_shared(siblings, c, 0);
        if let Some(l) = shared_from(siblings, c, 0) {
            lemma_usable(l, affinity, l.len() as int);
        }
        let p = domains_upto(every, nodes, siblings, affinity, m - 1).0;
        let r = domains_upto(every, nodes, siblings, affinity, m).0;
        assert forall|i: int| 0 <= i < r.len() implies ascending((#[trigger] r[i]).1)
            && r[i].1.len() <= 0x1000_0000 by {
            if i < p.len() {
                assert(r[i] == p[i]);
            }
        }
    }
}

} // verus!
