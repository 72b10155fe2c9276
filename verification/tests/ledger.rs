//! Tests for the Load Ledger: loads, selection policies and transfers.

use makespan::group::MachineGroup;
use makespan::machine::Machine;

/// All tasks across all machines, sorted: the task multiset.
fn sorted_tasks(g: &MachineGroup) -> Vec<i32> {
    let mut out: Vec<i32> = Vec::new();
    for m in 0..g.machine_count() {
        let mach = g.machine_at(m);
        for i in 0..mach.task_count() {
            out.push(mach.task_at(i));
        }
    }
    out.sort();
    out
}

fn machine_loads(g: &MachineGroup) -> Vec<i32> {
    let mut out: Vec<i32> = Vec::new();
    for m in 0..g.machine_count() {
        out.push(g.machine_at(m).makespan());
    }
    out
}

fn seeded_group() -> MachineGroup {
    let mut g = MachineGroup::new(3);
    g.push_task(0, 6);
    g.push_task(0, 1);
    g.push_task(0, 4);
    g.push_task(0, 5);
    g
}

#[test]
fn machine_makespan_sums_durations() {
    let m = Machine::from_tasks(vec![6, 1, 4, 5]);
    assert_eq!(m.makespan(), 16);
    assert_eq!(m.task_count(), 4);
    assert_eq!(m.task_at(2), 4);
    let empty = Machine::new();
    assert_eq!(empty.makespan(), 0);
    assert_eq!(empty.task_count(), 0);
}

#[test]
fn new_group_is_empty() {
    let g = MachineGroup::new(4);
    assert_eq!(g.machine_count(), 4);
    assert_eq!(g.group_makespan(), 0);
    assert_eq!(g.group_max_makespan(), 0);
    assert_eq!(g.tasks_count(), 0);
    for m in 0..4 {
        assert_eq!(g.machine_at(m).task_count(), 0);
    }
}

#[test]
fn load_queries_on_seeded_group() {
    let g = seeded_group();
    assert_eq!(g.machine_at(0).makespan(), 16);
    assert_eq!(g.machine_at(1).makespan(), 0);
    assert_eq!(g.group_makespan(), 16);
    assert_eq!(g.group_max_makespan(), 16);
    assert_eq!(g.tasks_count(), 4);
}

#[test]
fn max_and_min_machine_tie_break_lowest_index() {
    let mut g = MachineGroup::new(4);
    // loads: 5, 7, 7, 5 -- both extremes are tied
    g.push_task(0, 5);
    g.push_task(1, 7);
    g.push_task(2, 7);
    g.push_task(3, 5);
    assert_eq!(g.max_makespan_machine(), 1);
    assert_eq!(g.min_makespan_machine(), 0);
    // deterministic across repeated calls on unchanged state
    for _ in 0..10 {
        assert_eq!(g.max_makespan_machine(), 1);
        assert_eq!(g.min_makespan_machine(), 0);
    }
}

#[test]
fn max_machine_on_all_empty_is_zero() {
    let g = MachineGroup::new(3);
    assert_eq!(g.max_makespan_machine(), 0);
    assert_eq!(g.min_makespan_machine(), 0);
}

#[test]
fn peek_task_returns_last() {
    let g = seeded_group();
    assert_eq!(g.peek_task(0), Some(5));
    assert_eq!(g.peek_task(1), None);
}

#[test]
fn peek_highest_task_first_occurrence() {
    let mut g = MachineGroup::new(2);
    g.push_task(0, 3);
    g.push_task(0, 9);
    g.push_task(0, 2);
    g.push_task(0, 9);
    assert_eq!(g.peek_highest_task(0), Some((9, 1)));
    assert_eq!(g.peek_highest_task(1), None);
}

#[test]
fn neighbor_id_is_next_index() {
    let g = MachineGroup::new(3);
    assert_eq!(g.neighbor_id(0), Some(1));
    assert_eq!(g.neighbor_id(1), Some(2));
    // the last machine has no neighbor after it: no out-of-range id is
    // ever returned
    assert_eq!(g.neighbor_id(2), None);
    assert_eq!(g.neighbor_id(3), None);
    assert_eq!(g.neighbor_id(7), None);
}

#[test]
fn transfer_moves_one_task() {
    let mut g = seeded_group();
    let before = sorted_tasks(&g);
    // move task 6 (position 0) from machine 0 to machine 1
    assert!(g.transfer_task(0, 1, 0));
    assert_eq!(g.machine_at(0).makespan(), 10);
    assert_eq!(g.machine_at(1).makespan(), 6);
    // swap-with-last-and-pop: the last task (5) fills position 0
    assert_eq!(g.machine_at(0).task_at(0), 5);
    assert_eq!(g.machine_at(1).task_at(0), 6);
    assert_eq!(sorted_tasks(&g), before);
    assert_eq!(g.tasks_count(), 4);
}

#[test]
fn transfer_out_of_range_fails_and_changes_nothing() {
    let mut g = MachineGroup::new(2);
    g.push_task(0, 8);
    g.push_task(0, 3);
    g.push_task(1, 2);
    let before = sorted_tasks(&g);
    let loads_before = machine_loads(&g);
    assert!(!g.transfer_task(0, 1, 99));
    assert_eq!(sorted_tasks(&g), before);
    assert_eq!(machine_loads(&g), loads_before);
    assert_eq!(g.machine_at(0).task_count(), 2);
    assert_eq!(g.machine_at(1).task_count(), 1);
}

#[test]
fn transfer_to_self_is_safe() {
    let mut g = seeded_group();
    let before = sorted_tasks(&g);
    let total_before = g.group_makespan();
    assert!(g.transfer_task(0, 0, 1));
    assert_eq!(sorted_tasks(&g), before);
    assert_eq!(g.group_makespan(), total_before);
    assert_eq!(g.machine_at(0).makespan(), 16);
    assert_eq!(g.tasks_count(), 4);
}

#[test]
fn conservation_over_transfer_sequences() {
    let mut g = MachineGroup::new(3);
    g.push_task(0, 6);
    g.push_task(0, 1);
    g.push_task(1, 4);
    g.push_task(2, 5);
    let before = sorted_tasks(&g);
    let total_before = g.group_makespan();
    let moves = [(0usize, 2usize, 1usize), (2, 1, 0), (1, 1, 0), (1, 0, 5), (2, 0, 0)];
    for (s, d, pos) in moves {
        g.transfer_task(s, d, pos);
        assert_eq!(sorted_tasks(&g), before);
        assert_eq!(g.group_makespan(), total_before);
    }
}

#[test]
fn clone_and_replace_restore_a_snapshot() {
    let mut g = seeded_group();
    let snapshot = g.machines_clone();
    let loads_before = machine_loads(&g);
    let tasks_before = sorted_tasks(&g);
    assert!(g.transfer_task(0, 2, 0));
    assert_ne!(machine_loads(&g), loads_before);
    g.replace_machine_list(snapshot);
    assert_eq!(machine_loads(&g), loads_before);
    assert_eq!(sorted_tasks(&g), tasks_before);
}
