//! Greedy local search (best improvement): repeatedly move the largest task
//! from the most-loaded machine to the least-loaded machine while doing so
//! strictly reduces the maximum load, then halt.

use vstd::prelude::*;
use crate::group::{
    MachineGroup, group_mset, group_wf, is_first_highest_pos, is_first_max_index,
    is_first_min_index, loads, max_load, min_load, total_load, lemma_first_highest_pos_unique,
    lemma_first_max_index_unique, lemma_first_min_index_unique, lemma_loads_nonneg,
    lemma_loads_update, lemma_machine_wf_of_group, lemma_max_load_le_total,
};
use crate::sums::{
    all_pos, seq_max, sum_seq, sum_sq, swap_removed, lemma_seq_max_attained, lemma_seq_max_is,
    lemma_sum_seq_push, lemma_sum_sq_le_square, lemma_sum_sq_nonneg, lemma_sum_sq_update,
    lemma_swap_removed,
};

verus! {

/// The durations on a machine as mathematical integers.
pub open spec fn task_ints(s: Seq<i32>) -> Seq<int> {
    s.map_values(|x: i32| x as int)
}

/// The largest duration on a machine.
pub open spec fn max_task(s: Seq<i32>) -> int {
    seq_max(task_ints(s))
}

/// The state after moving the task at `pos` from machine `s` to machine `d`
/// (swap-with-last-and-pop removal, append on arrival).
pub open spec fn move_applied(g: Seq<Seq<i32>>, s: int, d: int, pos: int) -> Seq<Seq<i32>> {
    g.update(s, swap_removed(g[s], pos)).update(d, g[d].push(g[s][pos]))
}

/// The move greedy local search accepts on `g`, if any: the task at the
/// first position of the largest duration on the first most-loaded machine,
/// headed to the first least-loaded machine, accepted only when it lands
/// strictly below the current maximum. Local search is deterministic, so
/// this pins every move of a run.
pub open spec fn search_move(g: Seq<Seq<i32>>) -> Option<(int, int, int)> {
    if g.len() < 2 {
        None
    } else {
        let s = choose|i: int| is_first_max_index(g, i);
        if g[s].len() == 0 {
            None
        } else {
            let pos = choose|p: int| is_first_highest_pos(g[s], p);
            let d = choose|i: int| is_first_min_index(g, i);
            if g[s][pos] + sum_seq(g[d]) < sum_seq(g[s]) {
                Some((s, d, pos))
            } else {
                None
            }
        }
    }
}

/// `g` reaches `h` in exactly `k` accepted moves of greedy local search.
pub open spec fn search_steps(g: Seq<Seq<i32>>, h: Seq<Seq<i32>>, k: nat) -> bool
    decreases k,
{
    if k == 0 {
        g == h
    } else {
        search_move(g) matches Some((s, d, pos)) && search_steps(
            move_applied(g, s, d, pos),
            h,
            (k - 1) as nat,
        )
    }
}

/// A whole run of greedy local search started on `g`: exactly `k` accepted
/// moves lead to `h`, where no further move is accepted.
pub open spec fn search_runs_to(g: Seq<Seq<i32>>, h: Seq<Seq<i32>>, k: nat) -> bool {
    search_steps(g, h, k) && search_move(h) is None
}

/// When a move with the accepted shape exists, `search_move` is exactly it.
proof fn lemma_search_move_some(g: Seq<Seq<i32>>, s: int, d: int, pos: int)
    requires
        g.len() >= 2,
        is_first_max_index(g, s),
        is_first_highest_pos(g[s], pos),
        is_first_min_index(g, d),
        g[s][pos] + sum_seq(g[d]) < sum_seq(g[s]),
    ensures
        search_move(g) == Some((s, d, pos)),
{
    assert(exists|i: int| is_first_max_index(g, i));
    let s0 = choose|i: int| is_first_max_index(g, i);
    lemma_first_max_index_unique(g, s0, s);
    assert(exists|p: int| is_first_highest_pos(g[s], p));
    let pos0 = choose|p: int| is_first_highest_pos(g[s], p);
    lemma_first_highest_pos_unique(g[s], pos0, pos);
    assert(exists|i: int| is_first_min_index(g, i));
    let d0 = choose|i: int| is_first_min_index(g, i);
    lemma_first_min_index_unique(g, d0, d);
}

/// Local search halts when the most-loaded machine is empty.
proof fn lemma_search_move_none_empty(g: Seq<Seq<i32>>, s: int)
    requires
        g.len() >= 2,
        is_first_max_index(g, s),
        g[s].len() == 0,
    ensures
        search_move(g) is None,
{
    assert(exists|i: int| is_first_max_index(g, i));
    let s0 = choose|i: int| is_first_max_index(g, i);
    lemma_first_max_index_unique(g, s0, s);
}

/// Local search halts when the candidate move would not land strictly below
/// the current maximum.
proof fn lemma_search_move_none_rejected(g: Seq<Seq<i32>>, s: int, d: int, pos: int)
    requires
        g.len() >= 2,
        is_first_max_index(g, s),
        is_first_highest_pos(g[s], pos),
        is_first_min_index(g, d),
        g[s][pos] + sum_seq(g[d]) >= sum_seq(g[s]),
    ensures
        search_move(g) is None,
{
    assert(exists|i: int| is_first_max_index(g, i));
    let s0 = choose|i: int| is_first_max_index(g, i);
    lemma_first_max_index_unique(g, s0, s);
    assert(exists|p: int| is_first_highest_pos(g[s], p));
    let pos0 = choose|p: int| is_first_highest_pos(g[s], p);
    lemma_first_highest_pos_unique(g[s], pos0, pos);
    assert(exists|i: int| is_first_min_index(g, i));
    let d0 = choose|i: int| is_first_min_index(g, i);
    lemma_first_min_index_unique(g, d0, d);
}

/// A path of accepted moves extends by one accepted move at its end.
proof fn lemma_search_steps_snoc(
    g: Seq<Seq<i32>>,
    h: Seq<Seq<i32>>,
    k: nat,
    s: int,
    d: int,
    pos: int,
)
    requires
        search_steps(g, h, k),
        search_move(h) == Some((s, d, pos)),
    ensures
        search_steps(g, move_applied(h, s, d, pos), (k + 1) as nat),
    decreases k,
{
    if k == 0 {
        assert(search_steps(move_applied(h, s, d, pos), move_applied(h, s, d, pos), 0));
    } else {
        match search_move(g) {
            Some((s1, d1, p1)) => {
                lemma_search_steps_snoc(move_applied(g, s1, d1, p1), h, (k - 1) as nat, s, d, pos);
            },
            None => {
                assert(false);
            },
        }
    }
}

/// Local search can do nothing more: the most-loaded machine is empty, or
/// moving its largest task to the least-loaded machine would not strictly
/// reduce the load below the current maximum.
pub open spec fn local_optimum(g: Seq<Seq<i32>>) -> bool {
    forall|i: int|
        #[trigger] is_first_max_index(g, i) ==> g[i].len() == 0 || max_task(g[i]) + min_load(g)
            >= max_load(g)
}

/// The loads after an accepted move: the source loses the task's duration,
/// the destination gains it.
proof fn lemma_move_loads(g: Seq<Seq<i32>>, s: int, d: int, pos: int)
    requires
        0 <= s < g.len(),
        0 <= d < g.len(),
        s != d,
        0 <= pos < g[s].len(),
    ensures
        loads(move_applied(g, s, d, pos)) == loads(g).update(s, sum_seq(g[s]) - g[s][pos]).update(
            d,
            sum_seq(g[d]) + g[s][pos],
        ),
        move_applied(g, s, d, pos).len() == g.len(),
{
    let t = g[s][pos];
    let g1 = g.update(s, swap_removed(g[s], pos));
    lemma_swap_removed(g[s], pos);
    lemma_loads_update(g, s, swap_removed(g[s], pos));
    lemma_sum_seq_push(g[d], t);
    lemma_loads_update(g1, d, g[d].push(t));
}

/// After a move that local search accepts — the largest task of the
/// most-loaded machine `s` goes to a machine `d` where it ends below the
/// current maximum — the maximum load does not increase; when `s` is the
/// only machine with the maximum load, the maximum strictly decreases.
pub proof fn lemma_accepted_move_max_load(g: Seq<Seq<i32>>, s: int, d: int, pos: int)
    requires
        group_wf(g),
        is_first_max_index(g, s),
        0 <= d < g.len(),
        0 <= pos < g[s].len(),
        g[s][pos] + sum_seq(g[d]) < sum_seq(g[s]),
    ensures
        s != d,
        max_load(move_applied(g, s, d, pos)) <= max_load(g),
        (forall|j: int| 0 <= j < g.len() && j != s ==> sum_seq(#[trigger] g[j]) < sum_seq(g[s]))
            ==> max_load(move_applied(g, s, d, pos)) < max_load(g),
{
    let t = g[s][pos];
    assert(all_pos(g[s]));
    assert(t >= 1);
    assert(sum_seq(g[d]) < sum_seq(g[s]));
    let gm = move_applied(g, s, d, pos);
    lemma_move_loads(g, s, d, pos);
    assert(loads(g)[s as int] == sum_seq(g[s]));
    lemma_seq_max_is_first_max(g, s);
    let ls = sum_seq(g[s]);
    assert forall|k: int| 0 <= k < gm.len() implies loads(gm)[k] <= ls by {
        assert(sum_seq(g[k]) <= ls);
    }
    lemma_seq_max_attained(loads(gm));
    let k0 = choose|k: int| 0 <= k < loads(gm).len() && loads(gm)[k] == seq_max(loads(gm));
    assert(max_load(gm) <= ls);
    if forall|j: int| 0 <= j < g.len() && j != s ==> sum_seq(#[trigger] g[j]) < sum_seq(g[s]) {
        assert forall|k: int| 0 <= k < gm.len() implies loads(gm)[k] < ls by {
            if k != s && k != d {
                assert(sum_seq(g[k]) < ls);
            }
        }
        assert(loads(gm)[k0] < ls);
    }
}

/// `sum_seq(g[s])` is the maximum load when `s` is the first max index.
proof fn lemma_seq_max_is_first_max(g: Seq<Seq<i32>>, s: int)
    requires
        is_first_max_index(g, s),
    ensures
        max_load(g) == sum_seq(g[s]),
{
    assert(loads(g)[s] == sum_seq(g[s]));
    assert forall|j: int| 0 <= j < loads(g).len() implies loads(g)[j] <= sum_seq(g[s]) by {
        assert(sum_seq(g[j]) <= sum_seq(g[s]));
    }
    lemma_seq_max_is(loads(g), sum_seq(g[s]));
}

/// An accepted move strictly decreases the sum of squared loads — the
/// termination measure of local search.
proof fn lemma_accepted_move_measure(g: Seq<Seq<i32>>, s: int, d: int, pos: int)
    requires
        group_wf(g),
        is_first_max_index(g, s),
        0 <= d < g.len(),
        0 <= pos < g[s].len(),
        g[s][pos] + sum_seq(g[d]) < sum_seq(g[s]),
    ensures
        sum_sq(loads(move_applied(g, s, d, pos))) <= sum_sq(loads(g)) - 2,
{
    let t = g[s][pos];
    assert(all_pos(g[s]));
    assert(t >= 1);
    assert(sum_seq(g[d]) < sum_seq(g[s]));
    let ls = sum_seq(g[s]);
    let ld = sum_seq(g[d]);
    lemma_move_loads(g, s, d, pos);
    let l0 = loads(g);
    let l1 = l0.update(s, ls - t);
    let l2 = l1.update(d, ld + t);
    lemma_sum_sq_update(l0, s, ls - t);
    assert(l1[d] == ld);
    lemma_sum_sq_update(l1, d, ld + t);
    assert((ls - t) * (ls - t) + (ld + t) * (ld + t) <= ls * ls + ld * ld - 2)
        by (nonlinear_arith)
        requires
            t >= 1,
            ld + t + 1 <= ls,
    ;
}

/// Greedy best-improvement local search. Each iteration moves the largest
/// task from the most-loaded machine to the least-loaded machine if that
/// strictly reduces the load below the current maximum, and halts otherwise.
/// Returns the number of iterations, the final terminating check included.
///
/// The task multiset and the total load are conserved, the maximum load
/// never increases, and the loop terminates because every accepted move
/// strictly decreases the sum of squared loads.
pub fn local_search_best(mg: &mut MachineGroup) -> (iters: u64)
    requires
        old(mg).wf(),
    ensures
        final(mg).wf(),
        final(mg)@.len() == old(mg)@.len(),
        group_mset(final(mg)@) == group_mset(old(mg)@),
        total_load(final(mg)@) == total_load(old(mg)@),
        max_load(final(mg)@) <= max_load(old(mg)@),
        old(mg)@.len() < 2 ==> final(mg)@ == old(mg)@ && iters == 0,
        old(mg)@.len() >= 2 ==> iters >= 1 && local_optimum(final(mg)@),
        old(mg)@.len() >= 2 ==> exists|k: nat|
            search_runs_to(old(mg)@, final(mg)@, k) && iters == k + 1,
{
    if mg.machine_count() < 2 {
        return 0;
    }
    let ghost g0 = mg@;
    let ghost mut moves: nat = 0;
    let mut iters: u64 = 0;
    loop
        invariant_except_break
            2 * (iters as int) <= sum_sq(loads(g0)) - sum_sq(loads(mg@)),
            iters as nat == moves,
        invariant
            search_steps(g0, mg@, moves),
            mg.wf(),
            group_wf(g0),
            g0.len() >= 2,
            mg@.len() == g0.len(),
            group_mset(mg@) == group_mset(g0),
            total_load(mg@) == total_load(g0),
            max_load(mg@) <= max_load(g0),
        ensures
            mg.wf(),
            mg@.len() == g0.len(),
            group_mset(mg@) == group_mset(g0),
            total_load(mg@) == total_load(g0),
            max_load(mg@) <= max_load(g0),
            local_optimum(mg@),
            iters >= 1,
            search_runs_to(g0, mg@, moves),
            iters as int == moves + 1,
        decreases sum_sq(loads(mg@)),
    {
        proof {
            lemma_sum_sq_nonneg(loads(mg@));
            lemma_loads_nonneg(g0);
            lemma_sum_sq_le_square(loads(g0));
            lemma_max_load_le_total(g0);
            let tot = total_load(g0);
            assert(tot * tot <= 0x7fff_ffff * 0x7fff_ffffi64) by (nonlinear_arith)
                requires
                    0 <= tot <= 0x7fff_ffff,
            ;
        }
        iters = iters + 1;
        let source_id = mg.max_makespan_machine();
        match mg.peek_highest_task(source_id) {
            None => {
                proof {
                    assert forall|i: int| #[trigger]
                        is_first_max_index(mg@, i) implies mg@[i].len() == 0 || max_task(mg@[i])
                        + min_load(mg@) >= max_load(mg@) by {
                        lemma_first_max_index_unique(mg@, i, source_id as int);
                    }
                    lemma_search_move_none_empty(mg@, source_id as int);
                }
                break ;
            },
            Some((task, task_id)) => {
                let dest_id = mg.min_makespan_machine();
                proof {
                    lemma_machine_wf_of_group(mg@, source_id as int);
                    lemma_machine_wf_of_group(mg@, dest_id as int);
                }
                let source_makespan = mg.machine_at(source_id).makespan();
                let dest_makespan = mg.machine_at(dest_id).makespan();
                if (task as i64) + (dest_makespan as i64) < (source_makespan as i64) {
                    let ghost g = mg@;
                    mg.transfer_task(source_id, dest_id, task_id);
                    proof {
                        let s = source_id as int;
                        let d = dest_id as int;
                        let pos = task_id as int;
                        assert(s != d);
                        assert(mg@ =~= move_applied(g, s, d, pos));
                        lemma_accepted_move_max_load(g, s, d, pos);
                        lemma_accepted_move_measure(g, s, d, pos);
                        lemma_sum_sq_nonneg(loads(mg@));
                        lemma_search_move_some(g, s, d, pos);
                        lemma_search_steps_snoc(g0, g, moves, s, d, pos);
                        moves = moves + 1;
                    }
                } else {
                    proof {
                        lemma_max_task_is(mg@[source_id as int], task as int, task_id as int);
                        assert forall|i: int| #[trigger]
                            is_first_max_index(mg@, i) implies mg@[i].len() == 0 || max_task(
                            mg@[i],
                        ) + min_load(mg@) >= max_load(mg@) by {
                            lemma_first_max_index_unique(mg@, i, source_id as int);
                        }
                        lemma_search_move_none_rejected(
                            mg@,
                            source_id as int,
                            dest_id as int,
                            task_id as int,
                        );
                    }
                    break ;
                }
            },
        }
    }
    iters
}

/// A duration attained on the machine and at least every other one is its
/// largest duration.
proof fn lemma_max_task_is(s: Seq<i32>, v: int, pos: int)
    requires
        0 <= pos < s.len(),
        s[pos] == v,
        forall|j: int| 0 <= j < s.len() ==> s[j] <= v,
    ensures
        max_task(s) == v,
{
    assert(task_ints(s)[pos] == v);
    assert forall|j: int| 0 <= j < task_ints(s).len() implies task_ints(s)[j] <= v by {
        assert(s[j] <= v);
    }
    lemma_seq_max_is(task_ints(s), v);
}

} // verus!
