//! Tests for the simulated-annealing state machine and the random-neighbor
//! selection policy.

use makespan::anneal::{Annealer, Proposal};
use makespan::group::MachineGroup;

fn machine_loads(g: &MachineGroup) -> Vec<i32> {
    let mut out: Vec<i32> = Vec::new();
    for m in 0..g.machine_count() {
        out.push(g.machine_at(m).makespan());
    }
    out
}

fn sorted_tasks(g: &MachineGroup) -> Vec<i32> {
    let mut out: Vec<i32> = Vec::new();
    for m in 0..g.machine_count() {
        let mach = g.machine_at(m);
        for i in 0..mach.task_count() {
            out.push(mach.task_at(i));
        }
    }
    out.sort();
    out
}

#[test]
fn random_neighbor_is_in_range_and_different() {
    let g = MachineGroup::new(5);
    for current in 0..5 {
        for _ in 0..100 {
            let r = g.select_neighbor_rng(current);
            assert!(r < 5);
            assert_ne!(r, current);
        }
    }
}

#[test]
fn random_neighbor_of_two_machines_is_the_other() {
    let g = MachineGroup::new(2);
    for _ in 0..20 {
        assert_eq!(g.select_neighbor_rng(0), 1);
        assert_eq!(g.select_neighbor_rng(1), 0);
    }
}

#[test]
fn annealing_single_machine_returns_zero_iterations() {
    let mut g = MachineGroup::new(1);
    g.push_task(0, 9);
    g.push_task(0, 2);
    let mut ann = Annealer::new(g);
    assert!(matches!(ann.propose(), Proposal::Finished));
    let (result, iters) = ann.finish();
    assert_eq!(iters, 0);
    assert_eq!(machine_loads(&result), vec![11]);
    assert_eq!(result.machine_at(0).task_at(0), 9);
    assert_eq!(result.machine_at(0).task_at(1), 2);
}

#[test]
fn annealing_empty_group_finishes_at_once() {
    let g = MachineGroup::new(4);
    let mut ann = Annealer::new(g);
    assert!(matches!(ann.propose(), Proposal::Finished));
    let (result, iters) = ann.finish();
    assert_eq!(iters, 0);
    assert_eq!(result.group_max_makespan(), 0);
}

#[test]
fn annealing_best_seen_bounds_the_result() {
    // accept every uphill move: the walk is free to get worse, yet the
    // returned assignment must not be worse than the starting one
    let mut g = MachineGroup::new(3);
    for t in [6, 1, 4, 5, 2, 2] {
        g.push_task(0, t);
    }
    let start_max = g.group_max_makespan();
    let tasks_before = sorted_tasks(&g);
    let mut ann = Annealer::new(g);
    for _ in 0..200 {
        match ann.propose() {
            Proposal::Finished => break,
            Proposal::Accepted(delta) => assert!(delta < 0),
            Proposal::Pending(delta) => {
                assert!(delta >= 0);
                ann.resolve(true);
            }
        }
    }
    let iters = ann.iterations();
    assert!(iters <= 200);
    let (result, finished_iters) = ann.finish();
    assert_eq!(finished_iters, iters);
    assert!(result.group_max_makespan() <= start_max);
    assert_eq!(sorted_tasks(&result), tasks_before);
}

#[test]
fn annealing_rejection_restores_the_loads() {
    let mut g = MachineGroup::new(3);
    for t in [6, 1, 4, 5] {
        g.push_task(0, t);
    }
    let mut ann = Annealer::new(g);
    let mut rejected = 0;
    for _ in 0..50 {
        match ann.propose() {
            Proposal::Finished => break,
            Proposal::Accepted(_) => {}
            Proposal::Pending(_) => {
                let before = ann.current_max_makespan();
                ann.resolve(false);
                // a rejected move is reverted: the makespan of the prior
                // state comes back
                let after = ann.current_max_makespan();
                assert!(after <= before);
                rejected += 1;
            }
        }
    }
    assert!(rejected > 0);
    let (result, _) = ann.finish();
    assert_eq!(sorted_tasks(&result), vec![1, 4, 5, 6]);
}

#[test]
fn annealing_counts_resolved_iterations() {
    let mut g = MachineGroup::new(2);
    g.push_task(0, 10);
    g.push_task(0, 10);
    let mut ann = Annealer::new(g);
    let mut steps = 0;
    for _ in 0..10 {
        match ann.propose() {
            Proposal::Finished => break,
            Proposal::Accepted(_) => steps += 1,
            Proposal::Pending(_) => {
                ann.resolve(false);
                steps += 1;
            }
        }
    }
    assert_eq!(ann.iterations(), steps);
}
