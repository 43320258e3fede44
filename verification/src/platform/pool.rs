//! The workers of a search, and what each of them is set to use.

use std::sync::Arc;
use vstd::prelude::*;
use crate::eval::nnue::network::Network;
use crate::platform::syzygy::TableRegistry;
use crate::platform::threads::pool_size;

verus! {

/// When the tablebases are asked.
#[derive(Clone, Copy, Debug, PartialEq, Eq, Structural)]
pub struct ProbeLimits {
    pub probe_depth: i32,
    pub probe_limit: u32,
    pub use_rule50: bool,
}

/// What one worker is set to use.
#[derive(Debug)]
pub struct WorkerSettings {
    /// The number of the worker.
    pub id: usize,
    pub network: Option<Arc<Network>>,
    pub tablebases: Option<Arc<TableRegistry>>,
    /// The bounds that were set, where any were.
    pub limits: Option<ProbeLimits>,
}

/// A set of workers. There is always at least one.
#[derive(Debug)]
pub struct ThreadPool {
    workers: Vec<WorkerSettings>,
}

fn shared_network(n: &Option<Arc<Network>>) -> (r: Option<Arc<Network>>)
    ensures
        r == *n,
{
    match n {
        Some(a) => Some(Arc::clone(a)),
        None => None,
    }
}

fn shared_tables(t: &Option<Arc<TableRegistry>>) -> (r: Option<Arc<TableRegistry>>)
    ensures
        r == *t,
{
    match t {
        Some(a) => Some(Arc::clone(a)),
        None => None,
    }
}

impl View for ThreadPool {
    type V = Seq<WorkerSettings>;

    closed spec fn view(&self) -> Seq<WorkerSettings> {
        self.workers@
    }
}

impl ThreadPool {
    /// There is a worker, and each has its number.
    pub open spec fn wf(&self) -> bool {
        &&& self@.len() >= 1
        &&& forall|i: int| 0 <= i < self@.len() ==> (#[trigger] self@[i]).id == i
    }

    /// A pool of `n` workers that use nothing yet; at least one.
    pub fn new(n: usize) -> (r: ThreadPool)
        ensures
            r.wf(),
            r@.len() == (if n == 0 {
                1
            } else {
                n as int
            }),
            forall|i: int|
                0 <= i < r@.len() ==> (#[trigger] r@[i]).network is None && r@[i].tablebases is None
                    && r@[i].limits is None,
    {
        let mut pool = ThreadPool { workers: Vec::new() };
        pool.grow(pool_size(n), &None, &None);
        pool
    }

    /// Add workers until there are `n`.
    fn grow(
        &mut self,
        n: usize,
        network: &Option<Arc<Network>>,
        tablebases: &Option<Arc<TableRegistry>>,
    )
        requires
            old(self)@.len() <= n,
            forall|i: int| 0 <= i < old(self)@.len() ==> (#[trigger] old(self)@[i]).id == i,
        ensures
            final(self)@.len() == n,
            final(self)@.subrange(0, old(self)@.len() as int) == old(self)@,
            forall|i: int| 0 <= i < n ==> (#[trigger] final(self)@[i]).id == i,
            forall|i: int|
                old(self)@.len() <= i < n ==> (#[trigger] final(self)@[i]).network == *network
                    && final(self)@[i].tablebases == *tablebases && final(self)@[i].limits is None,
    {
        let ghost start = self@;
        assert(self@.subrange(0, start.len() as int) =~= start);
        while self.workers.len() < n
            invariant
                start.len() <= self@.len() <= n,
                self@.subrange(0, start.len() as int) == start,
                forall|i: int| 0 <= i < self@.len() ==> (#[trigger] self@[i]).id == i,
                forall|i: int|
                    start.len() <= i < self@.len() ==> (#[trigger] self@[i]).network == *network
                        && self@[i].tablebases == *tablebases && self@[i].limits is None,
            decreases n - self@.len(),
        {
            let ghost before = self@;
            let worker = WorkerSettings {
                id: self.workers.len(),
                network: shared_network(network),
                tablebases: shared_tables(tablebases),
                limits: None,
            };
            self.workers.push(worker);
            assert(self@ == before.push(worker));
            assert(self@.subrange(0, start.len() as int) =~= before.subrange(
                0,
                start.len() as int,
            ));
        }
    }

    /// Change the number of workers. Those that stay are unchanged, the first among them; a new
    /// one uses the network and the tablebases of the first.
    pub fn resize(&mut self, n: usize)
        requires
            old(self).wf(),
        ensures
            final(self).wf(),
            final(self)@.len() == (if n == 0 {
                1
            } else {
                n as int
            }),
            forall|i: int|
                0 <= i < old(self)@.len() && i < final(self)@.len() ==> #[trigger] final(self)@[i]
                    == old(self)@[i],
            forall|i: int|
                old(self)@.len() <= i < final(self)@.len() ==> {
                    &&& (#[trigger] final(self)@[i]).network == old(self)@[0].network
                    &&& final(self)@[i].tablebases == old(self)@[0].tablebases
                    &&& final(self)@[i].limits is None
                },
    {
        let n = pool_size(n);
        let ghost start = self@;
        let network = shared_network(&self.workers[0].network);
        let tablebases = shared_tables(&self.workers[0].tablebases);
        self.workers.truncate(n);
        let ghost cut = self@;
        if self.workers.len() < n {
            self.grow(n, &network, &tablebases);
            proof {
                assert(cut =~= start);
                assert forall|i: int| 0 <= i < start.len() implies #[trigger] self@[i] == start[i] by {
                    assert(self@.subrange(0, cut.len() as int)[i] == self@[i]);
                }
            }
        }
    }

    /// How many workers there are.
    pub fn len(&self) -> (r: usize)
        ensures
            r == self@.len(),
    {
        self.workers.len()
    }

    /// Whether there is no worker, which never happens.
    pub fn is_empty(&self) -> (r: bool)
        requires
            self.wf(),
        ensures
            !r,
    {
        self.workers.len() == 0
    }

    /// What one worker is set to use.
    pub fn worker(&self, i: usize) -> (r: &WorkerSettings)
        requires
            i < self@.len(),
        ensures
            *r == self@[i as int],
    {
        &self.workers[i]
    }

    /// Let every worker use a network, or none.
    pub fn set_network(&mut self, network: &Option<Arc<Network>>)
        requires
            old(self).wf(),
        ensures
            final(self).wf(),
            final(self)@.len() == old(self)@.len(),
            forall|i: int|
                0 <= i < old(self)@.len() ==> #[trigger] final(self)@[i] == (WorkerSettings {
                    network: *network,
                    ..old(self)@[i]
                }),
    {
        let ghost start = self@;
        let mut i: usize = 0;
        while i < self.workers.len()
            invariant
                i <= self@.len(),
                self@.len() == start.len(),
                forall|k: int|
                    0 <= k < i ==> #[trigger] self@[k] == (WorkerSettings {
                        network: *network,
                        ..start[k]
                    }),
                forall|k: int| i <= k < start.len() ==> #[trigger] self@[k] == start[k],
            decreases self@.len() - i,
        {
            let worker = &mut self.workers[i];
            worker.network = shared_network(network);
            i += 1;
        }
    }

    /// Let every worker use tablebases, or none, within the given bounds.
    pub fn set_tablebases(
        &mut self,
        tb: &Option<Arc<TableRegistry>>,
        probe_depth: i32,
        probe_limit: u32,
        use_rule50: bool,
    )
        requires
            old(self).wf(),
        ensures
            final(self).wf(),
            final(self)@.len() == old(self)@.len(),
            forall|i: int|
                0 <= i < old(self)@.len() ==> #[trigger] final(self)@[i] == (WorkerSettings {
                    tablebases: *tb,
                    limits: Some(ProbeLimits { probe_depth, probe_limit, use_rule50 }),
                    ..old(self)@[i]
                }),
    {
        let ghost start = self@;
        let mut i: usize = 0;
        while i < self.workers.len()
            invariant
                i <= self@.len(),
                self@.len() == start.len(),
                forall|k: int|
                    0 <= k < i ==> #[trigger] self@[k] == (WorkerSettings {
                        tablebases: *tb,
                        limits: Some(ProbeLimits { probe_depth, probe_limit, use_rule50 }),
                        ..start[k]
                    }),
                forall|k: int| i <= k < start.len() ==> #[trigger] self@[k] == start[k],
            decreases self@.len() - i,
        {
            let worker = &mut self.workers[i];
            worker.tablebases = shared_tables(tb);
            worker.limits = Some(ProbeLimits { probe_depth, probe_limit, use_rule50 });
            i += 1;
        }
    }
}

impl Default for ThreadPool {
    /// One worker that uses nothing yet.
    fn default() -> (r: ThreadPool)
        ensures
            r.wf(),
            r@.len() == 1,
            forall|i: int|
                0 <= i < r@.len() ==> (#[trigger] r@[i]).network is None && r@[i].tablebases is None
                    && r@[i].limits is None,
    {
        ThreadPool::new(1)
    }
}

} // verus!
