use route_rs::scheduler::{Dispatch, NodeLinks, Scheduler, SchedulerEvent};

fn link(id: u32, upstream: &[u32], downstream: Option<u32>) -> NodeLinks {
    NodeLinks { id, upstream_ids: upstream.to_vec(), downstream_id: downstream }
}

/// Two headwaters 1 and 2 drain into 3, which drains into 4.
fn small_network() -> Vec<NodeLinks> {
    vec![
        link(3, &[1, 2], Some(4)),
        link(1, &[], Some(3)),
        link(4, &[3], None),
        link(2, &[], Some(3)),
    ]
}

#[test]
fn headwaters_are_dispatched_first_round_robin() {
    let mut s = Scheduler::new(&small_network(), 2);
    let d = s.dispatch_ready();
    assert_eq!(
        d,
        vec![Dispatch { worker: 0, node_id: 1 }, Dispatch { worker: 1, node_id: 2 }]
    );
    assert!(s.dispatch_ready().is_empty());
}

#[test]
fn confluence_waits_for_every_feeder() {
    let mut s = Scheduler::new(&small_network(), 2);
    s.dispatch_ready();
    assert!(s.handle(SchedulerEvent::NodeCompleted(1)));
    assert!(s.dispatch_ready().is_empty());
    assert!(s.handle(SchedulerEvent::NodeCompleted(2)));
    assert_eq!(s.dispatch_ready(), vec![Dispatch { worker: 0, node_id: 3 }]);
    assert!(s.handle(SchedulerEvent::NodeCompleted(3)));
    assert_eq!(s.dispatch_ready(), vec![Dispatch { worker: 1, node_id: 4 }]);
    // the last completion ends the run
    assert!(!s.handle(SchedulerEvent::NodeCompleted(4)));
}

#[test]
fn repeated_completion_counts_once_as_finished_but_twice_as_feeder() {
    // A reach must be reported once; a second report still lowers its
    // downstream reach's count, as the run-level laws assume it does not happen.
    let mut s = Scheduler::new(&small_network(), 1);
    s.dispatch_ready();
    assert!(!s.complete(1));
    assert!(!s.complete(1));
    assert_eq!(s.dispatch_ready(), vec![Dispatch { worker: 0, node_id: 3 }]);
}

#[test]
fn shutdown_and_disconnect_stop_the_scheduler() {
    let mut s = Scheduler::new(&small_network(), 3);
    assert!(!s.handle(SchedulerEvent::Shutdown));
    let mut t = Scheduler::new(&small_network(), 3);
    assert!(!t.handle(SchedulerEvent::Disconnected));
    // nothing was consumed by either event
    assert_eq!(s.dispatch_ready().len(), 2);
}

#[test]
fn single_worker_takes_everything() {
    let nodes = vec![link(7, &[], None), link(8, &[], None), link(9, &[], None)];
    let mut s = Scheduler::new(&nodes, 1);
    let d = s.dispatch_ready();
    assert_eq!(d.iter().map(|x| x.worker).collect::<Vec<_>>(), vec![0, 0, 0]);
    assert_eq!(d.iter().map(|x| x.node_id).collect::<Vec<_>>(), vec![7, 8, 9]);
}

#[test]
fn round_robin_continues_across_dispatches() {
    let nodes = vec![link(1, &[], Some(3)), link(2, &[], None), link(3, &[1], None)];
    let mut s = Scheduler::new(&nodes, 2);
    assert_eq!(s.dispatch_ready().len(), 2);
    s.complete(1);
    assert_eq!(s.dispatch_ready(), vec![Dispatch { worker: 0, node_id: 3 }]);
}

#[test]
fn empty_network_is_done_after_any_completion() {
    let mut s = Scheduler::new(&Vec::new(), 4);
    assert!(s.dispatch_ready().is_empty());
    assert!(s.complete(42));
}

#[test]
fn completion_of_unknown_reach_releases_nothing() {
    let mut s = Scheduler::new(&small_network(), 2);
    s.dispatch_ready();
    assert!(!s.complete(99));
    assert!(s.dispatch_ready().is_empty());
}

#[test]
fn available_cpus_gives_at_least_one_worker() {
    let mut s = Scheduler::for_available_cpus(&small_network());
    assert!(s.num_workers() >= 1);
    let d = s.dispatch_ready();
    assert_eq!(d.len(), 2);
    assert!(d.iter().all(|x| x.worker < s.num_workers()));
}

#[test]
fn full_run_on_a_tree_dispatches_each_reach_once_after_its_feeders() {
    // reach i drains into i / 2 (reach 0 is the outlet); 63 reaches
    let n = 63u32;
    let nodes: Vec<NodeLinks> = (0..n)
        .map(|i| {
            let ups: Vec<u32> = [2 * i, 2 * i + 1].into_iter().filter(|&u| u != 0 && u < n && u != i).collect();
            link(i, &ups, if i == 0 { None } else { Some(i / 2) })
        })
        .collect();
    let mut s = Scheduler::new(&nodes, 4);
    let mut finished = std::collections::HashSet::new();
    let mut dispatched = std::collections::HashSet::new();
    let mut running = true;
    while running {
        let batch = s.dispatch_ready();
        assert!(!batch.is_empty(), "the scheduler stalled");
        for d in batch {
            assert!(dispatched.insert(d.node_id), "dispatched twice");
            let node = nodes.iter().find(|x| x.id == d.node_id).unwrap();
            assert!(node.upstream_ids.iter().all(|u| finished.contains(u)));
        }
        for id in dispatched.clone() {
            if finished.insert(id) {
                running = s.handle(SchedulerEvent::NodeCompleted(id));
                if !running {
                    break;
                }
            }
        }
    }
    assert_eq!(finished.len(), n as usize);
}

#[test]
fn reports_before_dispatch_still_release_in_order() {
    // both feeders of 3 are reported before anything is handed out
    let mut s = Scheduler::new(&small_network(), 2);
    assert!(s.handle(SchedulerEvent::NodeCompleted(1)));
    let first = s.dispatch_ready();
    assert_eq!(first.iter().map(|d| d.node_id).collect::<Vec<_>>(), vec![1, 2]);
    assert!(s.handle(SchedulerEvent::NodeCompleted(2)));
    assert_eq!(s.dispatch_ready().iter().map(|d| d.node_id).collect::<Vec<_>>(), vec![3]);
}
