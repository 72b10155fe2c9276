//! Tests for greedy local search.

use makespan::group::MachineGroup;
use makespan::search::local_search_best;

fn machine_loads(g: &MachineGroup) -> Vec<i32> {
    let mut out: Vec<i32> = Vec::new();
    for m in 0..g.machine_count() {
        out.push(g.machine_at(m).makespan());
    }
    out
}

fn sorted_tasks(g: &MachineGroup) -> Vec<i32> {
    let mut out: Vec<i32> = Vec::new();
    for m in 0..g.machine_count() {
        let mach = g.machine_at(m);
        for i in 0..mach.task_count() {
            out.push(mach.task_at(i));
        }
    }
    out.sort();
    out
}

#[test]
fn local_search_balances_seeded_scenario() {
    // 3 machines, machine 0 seeded with [6, 1, 4, 5] (load 16).
    let mut g = MachineGroup::new(3);
    for t in [6, 1, 4, 5] {
        g.push_task(0, t);
    }
    let iters = local_search_best(&mut g);
    // converges to loads {6, 5, 5} in some order, max load 6
    let mut loads = machine_loads(&g);
    loads.sort();
    assert_eq!(loads, vec![5, 5, 6]);
    assert_eq!(g.group_max_makespan(), 6);
    assert!(iters >= 1 && iters <= 4);
    assert_eq!(sorted_tasks(&g), vec![1, 4, 5, 6]);
}

#[test]
fn local_search_single_machine_is_a_no_op() {
    let mut g = MachineGroup::new(1);
    g.push_task(0, 9);
    g.push_task(0, 2);
    let iters = local_search_best(&mut g);
    assert_eq!(iters, 0);
    assert_eq!(machine_loads(&g), vec![11]);
    assert_eq!(g.machine_at(0).task_at(0), 9);
    assert_eq!(g.machine_at(0).task_at(1), 2);
}

#[test]
fn local_search_empty_machines_stop_immediately() {
    let mut g = MachineGroup::new(3);
    let iters = local_search_best(&mut g);
    assert_eq!(iters, 1);
    assert_eq!(g.group_max_makespan(), 0);
}

#[test]
fn local_search_max_load_never_increases() {
    let mut g = MachineGroup::new(4);
    for t in [13, 2, 2, 7, 40, 1, 1, 9, 30, 5] {
        g.push_task(0, t);
    }
    let before = g.group_max_makespan();
    let tasks_before = sorted_tasks(&g);
    let iters = local_search_best(&mut g);
    assert!(g.group_max_makespan() <= before);
    assert_eq!(sorted_tasks(&g), tasks_before);
    assert!(iters >= 1);
}

#[test]
fn local_search_terminates_within_iteration_cap() {
    // an adversarial spread of equal loads: the loop must halt well within
    // the cap that the strictly decreasing measure implies
    let mut g = MachineGroup::new(5);
    for m in 0..5 {
        for t in [10, 10, 10] {
            g.push_task(m, t);
        }
    }
    let iters = local_search_best(&mut g);
    assert!(iters <= 1000);
    assert_eq!(g.group_max_makespan(), 30);
}

#[test]
fn local_search_stops_at_local_optimum() {
    // moving the largest task (8) of the loaded machine anywhere would not
    // bring the new loads below the current maximum
    let mut g = MachineGroup::new(2);
    g.push_task(0, 8);
    g.push_task(0, 3);
    g.push_task(1, 6);
    let iters = local_search_best(&mut g);
    assert_eq!(iters, 1);
    assert_eq!(machine_loads(&g), vec![11, 6]);
}
