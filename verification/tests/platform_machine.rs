use std::sync::Arc;

use rfish_engine::board::types::{Move, Value};
use rfish_engine::platform::lists::{affinity_from_status, indices_from_shortened_string, MAX_INDICES};
use rfish_engine::platform::numa::{
    default_auto_policy, AutoPolicy, CpuIndex, NumaConfig, NumaIndex, SystemListing,
};
use rfish_engine::platform::pool::{ProbeLimits, ThreadPool};
use rfish_engine::platform::syzygy::TableRegistry;
use rfish_engine::platform::threads::{elect, pool_size, settle, SearchResult};

#[test]
fn a_shortened_list_parses_singles_and_ranges() {
    assert_eq!(indices_from_shortened_string("0"), vec![0]);
    assert_eq!(indices_from_shortened_string("0,2,4"), vec![0, 2, 4]);
    assert_eq!(indices_from_shortened_string("2-5"), vec![2, 3, 4, 5]);
    assert_eq!(indices_from_shortened_string("0-1,4,6-7"), vec![0, 1, 4, 6, 7]);
    assert_eq!(indices_from_shortened_string(""), Vec::<usize>::new());
}

#[test]
fn an_unreasonable_range_is_refused_rather_than_allocated() {
    assert!(indices_from_shortened_string("0-99999999999").is_empty());
    assert!(indices_from_shortened_string("5-1").is_empty());
    assert_eq!(
        indices_from_shortened_string(&format!("0-{}", MAX_INDICES - 2)).len(),
        MAX_INDICES - 1
    );
}

#[test]
fn a_malformed_piece_is_dropped_not_fatal() {
    assert_eq!(indices_from_shortened_string("0,zzz,2"), vec![0, 2]);
    assert_eq!(indices_from_shortened_string("1-2-3"), Vec::<usize>::new());
}

#[test]
fn the_allowed_processors_are_read_off_the_status() {
    let status = "Name:\tx\nCpus_allowed:\tff\nCpus_allowed_list:\t0-2,5\nMems_allowed:\t1\n";
    assert_eq!(affinity_from_status(status), Some(vec![0, 1, 2, 5]));
    assert_eq!(affinity_from_status("Name:\tx\n"), None);
}

#[test]
fn an_explicit_policy_round_trips_through_its_own_syntax() {
    let cfg = NumaConfig::from_string("0-3:4-7").expect("valid spec");
    assert_eq!(cfg.num_numa_nodes(), 2);
    assert_eq!(cfg.num_cpus(), 8);
    assert_eq!(cfg.num_cpus_in_numa_node(NumaIndex::new(0)), 4);
    assert_eq!(cfg.to_string_spec(), "0-3:4-7");
    assert!(cfg.requires_memory_replication());
}

#[test]
fn a_policy_naming_more_processors_than_any_machine_has_is_refused() {
    let many: Vec<String> = (0..40)
        .map(|i: usize| format!("{}-{}", i * 1_100_000, i * 1_100_000 + 1_048_573))
        .collect();
    assert!(
        NumaConfig::from_string(&many.join(",")).is_none(),
        "the SUM must be bounded, not only each range"
    );
    assert!(NumaConfig::from_string(&many.join(":")).is_none());

    let real = NumaConfig::from_string("0-63:64-127").expect("a 128-way machine is fine");
    assert_eq!(real.num_cpus(), 128);
}

#[test]
fn a_processor_named_twice_is_refused() {
    assert!(NumaConfig::from_string("0-3:3-7").is_none());
    assert!(NumaConfig::from_string("").is_none());
    assert!(NumaConfig::from_string("nonsense").is_none());
}

#[test]
fn the_spec_string_collapses_runs_but_not_gaps() {
    let cfg = NumaConfig::from_string("0,1,2,5:8").expect("valid spec");
    assert_eq!(cfg.to_string_spec(), "0-2,5:8");
}

#[test]
fn one_system_node_never_suggests_binding() {
    let mut cfg = NumaConfig::from_string("0-15").expect("valid spec");
    assert!(cfg.suggests_binding_threads(8), "an explicit config always binds");
    cfg.custom_affinity = false;
    for threads in [1usize, 2, 8, 64] {
        assert!(!cfg.suggests_binding_threads(threads), "{threads} threads");
    }
}

#[test]
fn a_single_thread_never_suggests_binding() {
    let mut cfg = NumaConfig::from_string("0-7:8-15").expect("valid spec");
    cfg.custom_affinity = false;
    assert!(!cfg.suggests_binding_threads(1));
    assert!(cfg.suggests_binding_threads(8));
}

#[test]
fn threads_are_distributed_proportionally_to_node_size() {
    let cfg = NumaConfig::from_string("0-7:8-11").expect("valid spec");
    let d = cfg.distribute_threads_among_numa_nodes(12);
    assert_eq!(d.len(), 12);
    let on0 = d.iter().filter(|&&n| n == NumaIndex::new(0)).count();
    let on1 = d.iter().filter(|&&n| n == NumaIndex::new(1)).count();
    assert_eq!((on0, on1), (8, 4));
}

#[test]
fn one_node_puts_every_thread_on_node_zero() {
    let cfg = NumaConfig::from_string("0-3").expect("valid spec");
    assert_eq!(cfg.distribute_threads_among_numa_nodes(5), vec![NumaIndex::new(0); 5]);
}

fn machines() -> Vec<SystemListing> {
    vec![
        SystemListing {
            affinity: None,
            online: Some(vec![0, 1]),
            node_cpus: vec![Some(vec![0, 1, 2, 3]), Some(vec![4, 5, 6, 7])],
            parallelism: 8,
            siblings: vec![(0, vec![0, 1]), (2, vec![2, 3]), (4, vec![4, 5, 6, 7])],
        },
        SystemListing {
            affinity: Some(vec![1, 2]),
            online: None,
            node_cpus: vec![],
            parallelism: 4,
            siblings: vec![],
        },
        SystemListing {
            affinity: None,
            online: Some(vec![0]),
            node_cpus: vec![None],
            parallelism: 1,
            siblings: vec![],
        },
    ]
}

#[test]
fn the_live_system_yields_at_least_one_node_and_one_cpu() {
    for machine in machines() {
        for policy in [AutoPolicy::System, AutoPolicy::L3Domains, default_auto_policy()] {
            let cfg = NumaConfig::from_system(policy, true, &machine);
            assert!(cfg.num_numa_nodes() >= 1, "{policy:?} produced no nodes");
            assert!(cfg.num_cpus() >= 1, "{policy:?} produced no processors");
            for n in (0..cfg.num_numa_nodes()).map(NumaIndex::new) {
                assert!(cfg.num_cpus_in_numa_node(n) >= 1, "{policy:?} node {n:?} is empty");
            }
            let spec = cfg.to_string_spec();
            let round = NumaConfig::from_string(&spec).expect("the reported spec must parse");
            assert_eq!(round.num_numa_nodes(), cfg.num_numa_nodes(), "{spec}");
            assert_eq!(round.num_cpus(), cfg.num_cpus(), "{spec}");
        }
    }
}

#[test]
fn the_machine_is_split_as_it_reports() {
    let machine = &machines()[0];
    let nodes = NumaConfig::from_system(AutoPolicy::System, true, machine);
    assert_eq!(nodes.to_string_spec(), "0-3:4-7");
    assert!(!nodes.custom_affinity);
    assert!(nodes.is_cpu_assigned(CpuIndex::new(7)));
    assert!(!nodes.is_cpu_assigned(CpuIndex::new(8)));
    let narrow = NumaConfig::from_system(AutoPolicy::System, true, &machines()[1]);
    assert_eq!(narrow.to_string_spec(), "1-2");
}

#[test]
fn ignoring_the_process_affinity_marks_the_config_custom() {
    let cfg = NumaConfig::from_system(AutoPolicy::System, false, &machines()[1]);
    assert!(cfg.custom_affinity);
    assert!(cfg.requires_memory_replication());
}

#[test]
fn the_default_config_is_one_node_covering_every_processor() {
    let cfg = NumaConfig::one_node(6);
    assert_eq!(cfg.num_numa_nodes(), 1);
    assert_eq!(cfg.num_cpus(), 6);
    assert!(!cfg.requires_memory_replication());
}

#[test]
fn a_processor_joins_one_node_only() {
    let mut cfg = NumaConfig::empty();
    assert!(cfg.add_cpu_to_node(NumaIndex::new(0), CpuIndex::new(3)));
    assert!(!cfg.add_cpu_to_node(NumaIndex::new(1), CpuIndex::new(3)));
    assert!(cfg.add_cpu_to_node(NumaIndex::new(1), CpuIndex::new(4)));
    assert_eq!(cfg.to_string_spec(), "3:4");
}

fn result(m: u16, score: i32, depth: i32) -> SearchResult {
    SearchResult { best_move: Move(m), ponder_move: None, score: Value(score), depth, nodes: 0 }
}

#[test]
fn the_vote_chooses_among_the_candidates_and_prefers_agreement() {
    let winner = elect(&vec![result(20, 10, 12), result(30, 12, 12), result(20, 10, 12)]);
    assert_eq!(winner.best_move, Move(20));

    let winner = elect(&vec![result(40, 900, 20), result(50, 0, 3), result(60, 0, 3)]);
    assert_eq!(winner.best_move, Move(40));

    assert_eq!(elect(&vec![result(7, 5, 9)]).best_move, Move(7));
    assert!(elect(&vec![]).best_move.is_none());
}

#[test]
fn a_vote_is_taken_only_for_a_plain_search() {
    let first = SearchResult {
        best_move: Move(1),
        ponder_move: None,
        score: Value(10),
        depth: 5,
        nodes: 100,
    };
    let other = SearchResult {
        best_move: Move(2),
        ponder_move: None,
        score: Value(200),
        depth: 9,
        nodes: 50,
    };
    let others = vec![other, other];
    assert_eq!(settle(first, &others, 1, false, false, 0).best_move, Move(2));
    assert_eq!(settle(first, &others, 2, false, false, 0).best_move, Move(1));
    assert_eq!(settle(first, &others, 1, true, false, 0).best_move, Move(1));
    assert_eq!(settle(first, &others, 1, false, true, 0).best_move, Move(1));
    assert_eq!(settle(first, &vec![], 1, false, false, 0), first);
    assert_eq!(settle(first, &vec![], 1, false, false, 170).nodes, 170);
    assert_eq!(pool_size(0), 1);
    assert_eq!(pool_size(7), 7);
}

#[test]
fn new_workers_use_what_the_first_one_uses() {
    let mut pool = ThreadPool::new(0);
    assert_eq!(pool.len(), 1);
    assert!(!pool.is_empty());
    let tb = Some(Arc::new(TableRegistry::new()));
    pool.set_tablebases(&tb, 3, 6, true);
    pool.set_network(&None);
    pool.resize(3);
    assert_eq!(pool.len(), 3);
    for i in 0..3 {
        assert_eq!(pool.worker(i).id, i);
        assert!(Arc::ptr_eq(pool.worker(i).tablebases.as_ref().expect("set"), tb.as_ref().expect("set")));
        assert!(pool.worker(i).network.is_none());
    }
    let limits = ProbeLimits { probe_depth: 3, probe_limit: 6, use_rule50: true };
    assert_eq!(pool.worker(0).limits, Some(limits));
    assert_eq!(pool.worker(2).limits, None);
    pool.resize(1);
    assert_eq!(pool.len(), 1);
    assert_eq!(pool.worker(0).limits, Some(limits));
    assert_eq!(ThreadPool::default().len(), 1);
}

#[test]
fn resizing_keeps_the_pool_usable() {
    let mut pool = ThreadPool::new(1);
    pool.resize(3);
    assert_eq!(pool.len(), 3);
    pool.resize(1);
    assert_eq!(pool.len(), 1);
    pool.resize(0);
    assert_eq!(pool.len(), 1, "a pool always has at least the main thread");
    assert_eq!(pool.worker(0).id, 0);
    let tb = Some(Arc::new(TableRegistry::new()));
    pool.set_tablebases(&tb, 1, 5, false);
    assert!(pool.worker(0).tablebases.is_some());
    // A new pool uses nothing yet.
    let fresh = ThreadPool::default();
    assert!(fresh.worker(0).network.is_none());
    assert!(fresh.worker(0).tablebases.is_none());
    assert!(fresh.worker(0).limits.is_none());
}
