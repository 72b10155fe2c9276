//! Simulated annealing support: the random-neighbor selection policy and a
//! state machine for the annealing run itself.
//!
//! One iteration picks the most-loaded machine, a uniformly random other
//! machine and the largest task of the source, and applies the transfer
//! tentatively (`propose`). A move that lowers the maximum load is kept
//! unconditionally; any other move waits for the caller's acceptance
//! decision, drawn from the cooling schedule (`resolve`), and is moved back
//! on rejection. The run tracks the best assignment seen and `finish`
//! returns it when the walk ended in a worse state, so the result is never
//! worse than the starting assignment.

use vstd::prelude::*;
use vstd::seq_lib::group_to_multiset_ensures;
use vstd::multiset::group_multiset_axioms;
use crate::machine::Machine;
use crate::group::{
    MachineGroup, group_mset, group_wf, is_first_highest_pos, is_first_max_index, loads,
    machines_view, max_load, lemma_max_load_le_total,
};
use crate::search::move_applied;
use crate::sums::{
    sum_seq, swap_removed, lemma_sum_seq_ge_len, lemma_sum_seq_push, lemma_swap_removed,
};

verus! {

/// The smaller of two integers.
pub open spec fn min_int(a: int, b: int) -> int {
    if a < b {
        a
    } else {
        b
    }
}

/// The shape of every annealing move from `g` to `h`: the task at the first
/// position of the largest duration leaves the first most-loaded machine
/// for some other machine — exactly one task moves.
pub open spec fn annealing_move(g: Seq<Seq<i32>>, h: Seq<Seq<i32>>) -> bool {
    exists|s: int, d: int, pos: int|
        #![trigger move_applied(g, s, d, pos)]
        {
            &&& is_first_max_index(g, s)
            &&& is_first_highest_pos(g[s], pos)
            &&& 0 <= d < g.len()
            &&& d != s
            &&& h == move_applied(g, s, d, pos)
        }
}

/// All machines but `s` hold exactly the tasks they hold in `prior`.
pub open spec fn unchanged_except(prior: Seq<Seq<i32>>, cur: Seq<Seq<i32>>, s: int) -> bool {
    forall|k: int| 0 <= k < cur.len() && k != s ==> cur[k] == prior[k]
}

/// Relies on `rand::random_range`: returns a uniformly distributed value in
/// the given range and panics only on an empty range, which the
/// precondition rules out.
#[verifier::external_body]
fn random_index(n: usize) -> (r: usize)
    requires
        n >= 1,
    ensures
        r < n,
{
    rand::random_range(0..n)
}

impl MachineGroup {
    /// A uniformly random machine other than `current`. Requires at least
    /// two machines; with fewer there is no other machine to pick.
    pub fn select_neighbor_rng(&self, current: usize) -> (r: usize)
        requires
            self@.len() >= 2,
            current < self@.len(),
        ensures
            r < self@.len(),
            r != current,
    {
        let k = random_index(self.machine_count() - 1);
        if k >= current {
            k + 1
        } else {
            k
        }
    }
}

/// The outcome of one proposed annealing move.
pub enum Proposal {
    /// No move exists: fewer than two machines, or every machine is empty.
    Finished,
    /// The move lowered the maximum load and was kept unconditionally.
    /// Carries the (negative) change of the maximum load.
    Accepted(i32),
    /// The move did not lower the maximum load. It is applied tentatively
    /// and awaits `resolve`. Carries the (non-negative) change of the
    /// maximum load.
    Pending(i32),
}

/// A simulated-annealing run over one ledger. The caller owns the cooling
/// schedule and the randomness of the acceptance rule; the state machine
/// owns every move, so conservation and the best-seen guarantee hold no
/// matter how the caller decides.
pub struct Annealer {
    mg: MachineGroup,
    best: Vec<Machine>,
    best_max: usize,
    iters: u64,
    pending: Option<(usize, usize)>,
    initial_max: Ghost<int>,
    prior: Ghost<Seq<Seq<i32>>>,
}

/// The tentative move recorded in `pending`: machine `d` just received the
/// task at its end from machine `s`, and moving it back restores every
/// machine's load of the prior state.
spec fn pending_ok(prior: Seq<Seq<i32>>, cur: Seq<Seq<i32>>, s: int, d: int) -> bool {
    &&& group_wf(prior)
    &&& cur.len() == prior.len()
    &&& 0 <= s < cur.len()
    &&& 0 <= d < cur.len()
    &&& s != d
    &&& cur[d].len() >= 1
    &&& cur[d] == prior[d].push(cur[d].last())
    &&& sum_seq(cur[s]) == sum_seq(prior[s]) - cur[d].last()
    &&& cur[s].to_multiset() == prior[s].to_multiset().remove(cur[d].last())
    &&& prior[s].to_multiset().count(cur[d].last()) >= 1
    &&& forall|k: int| 0 <= k < cur.len() && k != s && k != d ==> cur[k] == prior[k]
    &&& group_mset(cur) == group_mset(prior)
}

impl Annealer {
    /// The current assignment.
    pub closed spec fn ledger(self) -> Seq<Seq<i32>> {
        self.mg@
    }

    /// The best (lowest-makespan) assignment seen so far.
    pub closed spec fn best_seen(self) -> Seq<Seq<i32>> {
        machines_view(self.best@)
    }

    /// Completed iterations.
    pub closed spec fn count(self) -> u64 {
        self.iters
    }

    /// The maximum load of the assignment the run started from.
    pub closed spec fn start_max(self) -> int {
        self.initial_max@
    }

    /// Whether a tentative move awaits its acceptance decision.
    pub closed spec fn is_pending(self) -> bool {
        self.pending is Some
    }

    /// The assignment as it was before the pending tentative move.
    pub closed spec fn prior_state(self) -> Seq<Seq<i32>> {
        self.prior@
    }

    /// The run's invariant, established by `new` and preserved by `propose`
    /// and `resolve`.
    pub closed spec fn wf(self) -> bool {
        &&& group_wf(self.mg@)
        &&& machines_view(self.best@).len() == self.mg@.len()
        &&& group_wf(machines_view(self.best@))
        &&& group_mset(machines_view(self.best@)) == group_mset(self.mg@)
        &&& self.best_max == max_load(machines_view(self.best@))
        &&& max_load(machines_view(self.best@)) <= self.initial_max@
        &&& match self.pending {
            None => true,
            Some((s, d)) => pending_ok(self.prior@, self.mg@, s as int, d as int),
        }
    }

    /// Starts a run on the given assignment, which becomes the first best
    /// seen.
    pub fn new(mg: MachineGroup) -> (a: Annealer)
        requires
            mg.wf(),
        ensures
            a.wf(),
            !a.is_pending(),
            a.count() == 0,
            a.ledger() == mg@,
            a.best_seen() == mg@,
            a.start_max() == max_load(mg@),
    {
        let ghost v = mg@;
        let best = mg.machines_clone();
        let best_max = mg.group_max_makespan();
        Annealer {
            mg,
            best,
            best_max,
            iters: 0,
            pending: None,
            initial_max: Ghost(max_load(v)),
            prior: Ghost(v),
        }
    }

    /// The makespan of the current assignment.
    pub fn current_max_makespan(&self) -> (m: usize)
        requires
            self.wf(),
        ensures
            m == max_load(self.ledger()),
    {
        self.mg.group_max_makespan()
    }

    /// Completed iterations so far.
    pub fn iterations(&self) -> (n: u64)
        ensures
            n == self.count(),
    {
        self.iters
    }

    /// Whether a tentative move awaits its acceptance decision.
    pub fn has_pending(&self) -> (b: bool)
        ensures
            b == self.is_pending(),
    {
        self.pending.is_some()
    }

    /// Snapshots the current assignment as the best seen when it improves
    /// on the previous best.
    fn update_best(&mut self)
        requires
            old(self).wf(),
            !old(self).is_pending(),
        ensures
            final(self).wf(),
            !final(self).is_pending(),
            final(self).ledger() == old(self).ledger(),
            final(self).count() == old(self).count(),
            final(self).start_max() == old(self).start_max(),
            max_load(final(self).best_seen()) == min_int(
                max_load(old(self).best_seen()),
                max_load(old(self).ledger()),
            ),
    {
        let cur = self.mg.group_max_makespan();
        if cur < self.best_max {
            self.best = self.mg.machines_clone();
            self.best_max = cur;
        }
    }

    /// Proposes one annealing move. Returns `Finished`, changing nothing,
    /// exactly when no move exists: fewer than two machines, or a maximum
    /// load of zero (every machine empty).
    pub fn propose(&mut self) -> (r: Proposal)
        requires
            old(self).wf(),
            !old(self).is_pending(),
            old(self).count() < u64::MAX,
        ensures
            final(self).wf(),
            final(self).start_max() == old(self).start_max(),
            final(self).ledger().len() == old(self).ledger().len(),
            group_mset(final(self).ledger()) == group_mset(old(self).ledger()),
            (r is Finished) <==> (old(self).ledger().len() < 2 || max_load(old(self).ledger())
                == 0),
            r is Finished ==> *final(self) == *old(self),
            r matches Proposal::Accepted(d) ==> d < 0,
            r matches Proposal::Accepted(d) ==> !final(self).is_pending(),
            r matches Proposal::Accepted(d) ==> final(self).count() == old(self).count() + 1,
            r matches Proposal::Accepted(d) ==> max_load(final(self).ledger()) == max_load(
                old(self).ledger(),
            ) + d,
            r matches Proposal::Accepted(d) ==> max_load(final(self).best_seen()) == min_int(
                max_load(old(self).best_seen()),
                max_load(final(self).ledger()),
            ),
            r matches Proposal::Accepted(d) ==> annealing_move(
                old(self).ledger(),
                final(self).ledger(),
            ),
            r matches Proposal::Pending(d) ==> d >= 0,
            r matches Proposal::Pending(d) ==> final(self).is_pending(),
            r matches Proposal::Pending(d) ==> final(self).count() == old(self).count(),
            r matches Proposal::Pending(d) ==> final(self).prior_state() == old(self).ledger(),
            r matches Proposal::Pending(d) ==> max_load(final(self).ledger()) == max_load(
                old(self).ledger(),
            ) + d,
            r matches Proposal::Pending(d) ==> final(self).best_seen() == old(self).best_seen(),
            r matches Proposal::Pending(d) ==> annealing_move(
                old(self).ledger(),
                final(self).ledger(),
            ),
    {
        if self.mg.machine_count() < 2 {
            return Proposal::Finished;
        }
        let source_id = self.mg.max_makespan_machine();
        match self.mg.peek_highest_task(source_id) {
            None => {
                proof {
                    assert(max_load(self.mg@) == sum_seq(self.mg@[source_id as int]));
                }
                Proposal::Finished
            },
            Some((_task, task_id)) => {
                proof {
                    lemma_sum_seq_ge_len(self.mg@[source_id as int]);
                }
                let dest_id = self.mg.select_neighbor_rng(source_id);
                let old_max = self.mg.group_max_makespan();
                let ghost gprior = self.mg@;
                proof {
                    lemma_max_load_le_total(gprior);
                }
                self.mg.transfer_task(source_id, dest_id, task_id);
                let new_max = self.mg.group_max_makespan();
                proof {
                    lemma_max_load_le_total(self.mg@);
                }
                let delta = (new_max as i32) - (old_max as i32);
                proof {
                    broadcast use group_multiset_axioms;
                    broadcast use group_to_multiset_ensures;

                    let s = source_id as int;
                    let d = dest_id as int;
                    let pos = task_id as int;
                    let t = gprior[s][pos];
                    lemma_swap_removed(gprior[s], pos);
                    lemma_sum_seq_push(gprior[d], t);
                    assert(self.mg@[d].last() == t);
                    assert(gprior[s].contains(t));
                    assert(pending_ok(gprior, self.mg@, s, d));
                    assert(self.mg@ =~= move_applied(gprior, s, d, pos));
                    assert(annealing_move(gprior, self.mg@));
                }
                if delta < 0 {
                    self.iters = self.iters + 1;
                    self.update_best();
                    Proposal::Accepted(delta)
                } else {
                    self.pending = Some((source_id, dest_id));
                    self.prior = Ghost(gprior);
                    Proposal::Pending(delta)
                }
            },
        }
    }

    /// Applies the caller's acceptance decision to the pending tentative
    /// move: on `true` the move is kept and the best-seen assignment
    /// updated; on `false` the task is moved back, restoring every
    /// machine's load of the prior state.
    pub fn resolve(&mut self, accept: bool)
        requires
            old(self).wf(),
            old(self).is_pending(),
            old(self).count() < u64::MAX,
        ensures
            final(self).wf(),
            !final(self).is_pending(),
            final(self).count() == old(self).count() + 1,
            final(self).start_max() == old(self).start_max(),
            final(self).ledger().len() == old(self).ledger().len(),
            group_mset(final(self).ledger()) == group_mset(old(self).ledger()),
            accept ==> final(self).ledger() == old(self).ledger(),
            accept ==> max_load(final(self).best_seen()) == min_int(
                max_load(old(self).best_seen()),
                max_load(old(self).ledger()),
            ),
            !accept ==> loads(final(self).ledger()) == loads(old(self).prior_state()),
            !accept ==> max_load(final(self).ledger()) == max_load(old(self).prior_state()),
            !accept ==> group_mset(final(self).ledger()) == group_mset(old(self).prior_state()),
            !accept ==> final(self).best_seen() == old(self).best_seen(),
            !accept ==> forall|k: int|
                0 <= k < final(self).ledger().len()
                    ==> #[trigger] final(self).ledger()[k].to_multiset()
                    == old(self).prior_state()[k].to_multiset(),
            !accept ==> exists|s: int|
                0 <= s < final(self).ledger().len() && #[trigger] unchanged_except(
                    old(self).prior_state(),
                    final(self).ledger(),
                    s,
                ),
    {
        if let Some((s, d)) = self.pending {
            if accept {
                self.pending = None;
                self.iters = self.iters + 1;
                self.update_best();
            } else {
                let ghost gcur = self.mg@;
                let ghost gprior = self.prior@;
                let n = self.mg.machine_at(d).task_count();
                self.mg.transfer_task(d, s, n - 1);
                self.pending = None;
                self.iters = self.iters + 1;
                proof {
                    broadcast use group_multiset_axioms;
                    broadcast use group_to_multiset_ensures;

                    let t = gcur[d as int].last();
                    lemma_swap_removed(gcur[d as int], n as int - 1);
                    let dd = d as int;
                    assert(swap_removed(gcur[dd], n as int - 1) =~= gcur[dd].drop_last());
                    assert(gcur[d as int].drop_last() =~= gprior[d as int]);
                    let ss = s as int;
                    assert(self.mg@[ss] == gcur[ss].push(t));
                    lemma_sum_seq_push(gcur[ss], t);
                    assert(loads(self.mg@) =~= loads(gprior));
                    // the source machine gets its task multiset back; every
                    // other machine comes back exactly
                    assert(gcur[ss].push(t).to_multiset() == gcur[ss].to_multiset().insert(t));
                    assert(self.mg@[ss].to_multiset() =~= gprior[ss].to_multiset());
                    assert(unchanged_except(gprior, self.mg@, ss));
                    assert forall|k: int|
                        0 <= k < self.mg@.len() implies #[trigger] self.mg@[k].to_multiset()
                        == gprior[k].to_multiset() by {
                        if k != ss {
                            assert(self.mg@[k] == gprior[k]);
                        }
                    }
                }
            }
        } else {
            proof {
                assert(false);
            }
        }
    }

    /// Ends the run: when the current assignment is worse than the best
    /// seen, the best seen is restored. The returned ledger's makespan is
    /// the smaller of the two, so it never exceeds the makespan the run
    /// started from.
    pub fn finish(self) -> (r: (MachineGroup, u64))
        requires
            self.wf(),
            !self.is_pending(),
        ensures
            r.0.wf(),
            r.1 == self.count(),
            r.0@.len() == self.ledger().len(),
            group_mset(r.0@) == group_mset(self.ledger()),
            max_load(r.0@) == min_int(max_load(self.ledger()), max_load(self.best_seen())),
            max_load(r.0@) <= self.start_max(),
            max_load(r.0@) <= max_load(self.ledger()),
            max_load(self.ledger()) <= max_load(self.best_seen()) ==> r.0@ == self.ledger(),
            max_load(self.ledger()) > max_load(self.best_seen()) ==> r.0@ == self.best_seen(),
    {
        let Annealer { mut mg, best, best_max, iters, pending: _, initial_max: _, prior: _ } =
            self;
        let cur = mg.group_max_makespan();
        if cur > best_max {
            mg.replace_machine_list(best);
        }
        (mg, iters)
    }
}

} // verus!
