//! The Load Ledger: an ordered, fixed-size collection of machines with
//! load queries, selection policies and the atomic task-transfer operation.

use vstd::prelude::*;
use vstd::multiset::Multiset;
use vstd::multiset::group_multiset_axioms;
use vstd::assert_multisets_equal;
use vstd::seq_lib::group_to_multiset_ensures;
use crate::machine::{Machine, machine_wf};
use crate::sums::{
    all_pos, sum_seq, sum_int, seq_max, seq_min, swap_removed, lemma_sum_seq_ge_len,
    lemma_sum_seq_push, lemma_swap_removed, lemma_sum_int_take_succ, lemma_sum_int_take_bounds,
    lemma_sum_int_elem_le, lemma_sum_int_update, lemma_sum_int_pointwise_le,
    lemma_seq_max_attained, lemma_seq_max_is, lemma_seq_min_is,
};

verus! {

/// The group of machines that a run of an improvement algorithm works on.
pub struct MachineGroup {
    machines: Vec<Machine>,
}

/// The contents of a list of machines: one task sequence per machine.
pub open spec fn machines_view(ms: Seq<Machine>) -> Seq<Seq<i32>> {
    ms.map_values(|m: Machine| m@)
}

impl View for MachineGroup {
    type V = Seq<Seq<i32>>;

    closed spec fn view(&self) -> Seq<Seq<i32>> {
        machines_view(self.machines@)
    }
}

/// The per-machine loads.
pub open spec fn loads(g: Seq<Seq<i32>>) -> Seq<int> {
    Seq::new(g.len(), |i: int| sum_seq(g[i]))
}

/// The total load over all machines.
pub open spec fn total_load(g: Seq<Seq<i32>>) -> int {
    sum_int(loads(g))
}

/// The maximum load over all machines: the group's makespan.
pub open spec fn max_load(g: Seq<Seq<i32>>) -> int {
    seq_max(loads(g))
}

/// The minimum load over all machines.
pub open spec fn min_load(g: Seq<Seq<i32>>) -> int {
    seq_min(loads(g))
}

/// The multiset of all task durations across all machines. Transfers
/// conserve it: no task is created, duplicated or lost.
pub open spec fn group_mset(g: Seq<Seq<i32>>) -> Multiset<i32>
    decreases g.len(),
{
    if g.len() == 0 {
        Multiset::empty()
    } else {
        group_mset(g.drop_last()).add(g.last().to_multiset())
    }
}

/// Well-formed ledger: at least one machine, every duration positive, and a
/// total load that fits an `i32`, so no load query can overflow.
pub open spec fn group_wf(g: Seq<Seq<i32>>) -> bool {
    &&& g.len() >= 1
    &&& forall|i: int| 0 <= i < g.len() ==> all_pos(#[trigger] g[i])
    &&& total_load(g) <= i32::MAX
}

/// `i` is the lowest index among machines with the maximum load.
pub open spec fn is_first_max_index(g: Seq<Seq<i32>>, i: int) -> bool {
    &&& 0 <= i < g.len()
    &&& forall|j: int| 0 <= j < g.len() ==> sum_seq(#[trigger] g[j]) <= sum_seq(g[i])
    &&& forall|j: int| 0 <= j < i ==> sum_seq(#[trigger] g[j]) < sum_seq(g[i])
}

/// `i` is the lowest index among machines with the minimum load.
pub open spec fn is_first_min_index(g: Seq<Seq<i32>>, i: int) -> bool {
    &&& 0 <= i < g.len()
    &&& forall|j: int| 0 <= j < g.len() ==> sum_seq(g[i]) <= sum_seq(#[trigger] g[j])
    &&& forall|j: int| 0 <= j < i ==> sum_seq(g[i]) < sum_seq(#[trigger] g[j])
}

/// `pos` is the first position of the largest duration on the machine `s`.
pub open spec fn is_first_highest_pos(s: Seq<i32>, pos: int) -> bool {
    &&& 0 <= pos < s.len()
    &&& forall|j: int| 0 <= j < s.len() ==> s[j] <= s[pos]
    &&& forall|j: int| 0 <= j < pos ==> s[j] < s[pos]
}

/// The first-occurrence tie-break picks a unique task position.
pub proof fn lemma_first_highest_pos_unique(s: Seq<i32>, i: int, j: int)
    requires
        is_first_highest_pos(s, i),
        is_first_highest_pos(s, j),
    ensures
        i == j,
{
    if i < j {
        assert(s[i] < s[j]);
        assert(s[j] <= s[i]);
    }
    if j < i {
        assert(s[j] < s[i]);
        assert(s[i] <= s[j]);
    }
}

/// The tie-break rule picks a unique machine: any two indices that are both
/// the lowest index with the maximum load are equal.
pub proof fn lemma_first_max_index_unique(g: Seq<Seq<i32>>, i: int, j: int)
    requires
        is_first_max_index(g, i),
        is_first_max_index(g, j),
    ensures
        i == j,
{
    if i < j {
        assert(sum_seq(g[i]) < sum_seq(g[j]));
        assert(sum_seq(g[j]) <= sum_seq(g[i]));
    }
    if j < i {
        assert(sum_seq(g[j]) < sum_seq(g[i]));
        assert(sum_seq(g[i]) <= sum_seq(g[j]));
    }
}

/// The tie-break rule for the least-loaded machine is deterministic as well.
pub proof fn lemma_first_min_index_unique(g: Seq<Seq<i32>>, i: int, j: int)
    requires
        is_first_min_index(g, i),
        is_first_min_index(g, j),
    ensures
        i == j,
{
    if i < j {
        assert(sum_seq(g[j]) > sum_seq(g[i]));
        assert(sum_seq(g[i]) >= sum_seq(g[j]));
    }
    if j < i {
        assert(sum_seq(g[i]) > sum_seq(g[j]));
        assert(sum_seq(g[j]) >= sum_seq(g[i]));
    }
}

/// Under positive durations every load is non-negative.
pub proof fn lemma_loads_nonneg(g: Seq<Seq<i32>>)
    requires
        forall|i: int| 0 <= i < g.len() ==> all_pos(#[trigger] g[i]),
    ensures
        forall|i: int| 0 <= i < g.len() ==> 0 <= #[trigger] loads(g)[i],
{
    assert forall|i: int| 0 <= i < g.len() implies 0 <= #[trigger] loads(g)[i] by {
        lemma_sum_seq_ge_len(g[i]);
    }
}

/// Each machine's load, and therefore the maximum load, is at most the
/// total.
pub proof fn lemma_max_load_le_total(g: Seq<Seq<i32>>)
    requires
        g.len() >= 1,
        forall|i: int| 0 <= i < g.len() ==> all_pos(#[trigger] g[i]),
    ensures
        0 <= max_load(g),
        max_load(g) <= total_load(g),
        forall|i: int| 0 <= i < g.len() ==> sum_seq(#[trigger] g[i]) <= total_load(g),
{
    lemma_loads_nonneg(g);
    lemma_seq_max_attained(loads(g));
    let j = choose|j: int| 0 <= j < loads(g).len() && loads(g)[j] == seq_max(loads(g));
    lemma_sum_int_elem_le(loads(g), j);
    assert forall|i: int| 0 <= i < g.len() implies sum_seq(#[trigger] g[i]) <= total_load(g) by {
        lemma_sum_int_elem_le(loads(g), i);
    }
}

/// Replacing one machine changes the loads at exactly that index.
pub proof fn lemma_loads_update(g: Seq<Seq<i32>>, i: int, m: Seq<i32>)
    requires
        0 <= i < g.len(),
    ensures
        loads(g.update(i, m)) == loads(g).update(i, sum_seq(m)),
{
    assert(loads(g.update(i, m)) =~= loads(g).update(i, sum_seq(m)));
}

/// Replacing one machine exchanges its task multiset within the group's.
pub proof fn lemma_group_mset_update(g: Seq<Seq<i32>>, i: int, m: Seq<i32>)
    requires
        0 <= i < g.len(),
    ensures
        group_mset(g.update(i, m)).add(g[i].to_multiset()) == group_mset(g).add(m.to_multiset()),
    decreases g.len(),
{
    broadcast use group_multiset_axioms;

    let gu = g.update(i, m);
    assert(group_mset(gu) == group_mset(gu.drop_last()).add(gu.last().to_multiset()));
    assert(group_mset(g) == group_mset(g.drop_last()).add(g.last().to_multiset()));
    if i == g.len() - 1 {
        assert(gu.drop_last() =~= g.drop_last());
        assert(gu.last() == m);
        assert(g.last() == g[i]);
        assert_multisets_equal!(
            group_mset(gu).add(g[i].to_multiset()),
            group_mset(g).add(m.to_multiset()),
            v => {
                assert(group_mset(gu).count(v) == group_mset(g.drop_last()).add(
                    m.to_multiset(),
                ).count(v));
                assert(group_mset(g).count(v) == group_mset(g.drop_last()).add(
                    g[i].to_multiset(),
                ).count(v));
            }
        );
    } else {
        assert(gu.drop_last() =~= g.drop_last().update(i, m));
        lemma_group_mset_update(g.drop_last(), i, m);
        assert(g.drop_last()[i] == g[i]);
        assert(gu.last() == g.last());
        assert_multisets_equal!(
            group_mset(gu).add(g[i].to_multiset()),
            group_mset(g).add(m.to_multiset()),
            v => {
                assert(group_mset(gu).count(v) == group_mset(g.drop_last().update(i, m)).add(
                    g.last().to_multiset(),
                ).count(v));
                assert(group_mset(g).count(v) == group_mset(g.drop_last()).add(
                    g.last().to_multiset(),
                ).count(v));
                assert(group_mset(g.drop_last().update(i, m)).add(
                    g.drop_last()[i].to_multiset(),
                ).count(v) == group_mset(g.drop_last()).add(m.to_multiset()).count(v));
            }
        );
    }
}

/// Membership of a task in its machine carries over to the group multiset.
pub proof fn lemma_group_mset_contains(g: Seq<Seq<i32>>, i: int, j: int)
    requires
        0 <= i < g.len(),
        0 <= j < g[i].len(),
    ensures
        group_mset(g).count(g[i][j]) >= 1,
    decreases g.len(),
{
    broadcast use group_multiset_axioms;
    broadcast use group_to_multiset_ensures;

    if i == g.len() - 1 {
        assert(g.last().contains(g[i][j]));
    } else {
        lemma_group_mset_contains(g.drop_last(), i, j);
    }
}

/// Taking a machine out with `Vec::remove` and putting one back at the same
/// index with `Vec::insert` replaces exactly that machine.
proof fn lemma_view_remove_insert(ms: Seq<Machine>, i: int, m: Machine)
    requires
        0 <= i < ms.len(),
    ensures
        machines_view(ms.remove(i).insert(i, m)) == machines_view(ms).update(i, m@),
{
    assert(ms.remove(i).insert(i, m) =~= ms.update(i, m));
    assert(machines_view(ms.update(i, m)) =~= machines_view(ms).update(i, m@));
}

impl MachineGroup {
    /// The ledger's invariant, established by `new` and preserved by every
    /// operation.
    pub open spec fn wf(&self) -> bool {
        group_wf(self@)
    }

    /// A group of `mach_count` empty machines.
    pub fn new(mach_count: usize) -> (g: MachineGroup)
        requires
            mach_count >= 1,
        ensures
            g.wf(),
            g@.len() == mach_count,
            forall|i: int| 0 <= i < mach_count ==> #[trigger] g@[i].len() == 0,
            total_load(g@) == 0,
            max_load(g@) == 0,
            group_mset(g@) == Multiset::<i32>::empty(),
    {
        let mut machines: Vec<Machine> = Vec::new();
        let mut k: usize = 0;
        while k < mach_count
            invariant
                k <= mach_count,
                machines@.len() == k,
                forall|i: int| 0 <= i < k ==> #[trigger] machines@[i]@.len() == 0,
            decreases mach_count - k,
        {
            machines.push(Machine::new());
            k = k + 1;
        }
        let g = MachineGroup { machines };
        proof {
            assert(forall|i: int|
                0 <= i < mach_count ==> #[trigger] g@[i] == machines@[i]@);
            lemma_all_empty_facts(g@);
        }
        g
    }

    /// How many machines the group has.
    pub fn machine_count(&self) -> (n: usize)
        ensures
            n == self@.len(),
    {
        self.machines.len()
    }

    /// A reference to one machine.
    pub fn machine_at(&self, mach_id: usize) -> (m: &Machine)
        requires
            mach_id < self@.len(),
        ensures
            m@ == self@[mach_id as int],
    {
        &self.machines[mach_id]
    }

    /// Appends a task to the given machine. Used to populate a freshly
    /// constructed group.
    pub fn push_task(&mut self, mach_id: usize, task: i32)
        requires
            old(self).wf(),
            mach_id < old(self)@.len(),
            task >= 1,
            total_load(old(self)@) + task <= i32::MAX,
        ensures
            final(self).wf(),
            final(self)@ == old(self)@.update(
                mach_id as int,
                old(self)@[mach_id as int].push(task),
            ),
            final(self)@.len() == old(self)@.len(),
            total_load(final(self)@) == total_load(old(self)@) + task,
            group_mset(final(self)@) == group_mset(old(self)@).insert(task),
    {
        let ghost g0 = self@;
        let mut m = self.machines.remove(mach_id);
        m.add_task(task);
        self.machines.insert(mach_id, m);
        proof {
            broadcast use group_multiset_axioms;
            broadcast use group_to_multiset_ensures;

            let i = mach_id as int;
            lemma_view_remove_insert(old(self).machines@, i, m);
            let g1 = g0.update(i, g0[i].push(task));
            assert(self@ == g1);
            lemma_sum_seq_push(g0[i], task);
            lemma_loads_update(g0, i, g0[i].push(task));
            lemma_sum_int_update(loads(g0), i, sum_seq(g0[i]) + task);
            lemma_group_mset_update(g0, i, g0[i].push(task));
            assert(g0[i].push(task).to_multiset() == g0[i].to_multiset().insert(task));
            assert forall|v: i32| group_mset(g1).count(v) == group_mset(g0).insert(task).count(v) by {
                assert(group_mset(g1).add(g0[i].to_multiset()).count(v) == group_mset(g0).add(
                    g0[i].push(task).to_multiset(),
                ).count(v));
            }
            assert(group_mset(g1) =~= group_mset(g0).insert(task));
            assert forall|k: int| 0 <= k < g1.len() implies all_pos(#[trigger] g1[k]) by {
                if k != i {
                    assert(g1[k] == g0[k]);
                }
            }
        }
    }

    /// Moves the task at `task_id` from the source machine to the end of the
    /// destination machine, using swap-with-last-and-pop removal. Fails (and
    /// changes nothing) exactly when `task_id` is out of range; a transfer
    /// from a machine to itself conserves its load and task multiset.
    pub fn transfer_task(&mut self, source_id: usize, dest_id: usize, task_id: usize) -> (moved:
        bool)
        requires
            old(self).wf(),
            source_id < old(self)@.len(),
            dest_id < old(self)@.len(),
        ensures
            final(self).wf(),
            final(self)@.len() == old(self)@.len(),
            moved <==> task_id < old(self)@[source_id as int].len(),
            !moved ==> final(self)@ == old(self)@,
            group_mset(final(self)@) == group_mset(old(self)@),
            total_load(final(self)@) == total_load(old(self)@),
            moved && source_id != dest_id ==> final(self)@[source_id as int] == swap_removed(
                old(self)@[source_id as int],
                task_id as int,
            ),
            moved && source_id != dest_id ==> final(self)@[dest_id as int] == old(
                self,
            )@[dest_id as int].push(old(self)@[source_id as int][task_id as int]),
            moved && source_id == dest_id ==> final(self)@[source_id as int] == swap_removed(
                old(self)@[source_id as int],
                task_id as int,
            ).push(old(self)@[source_id as int][task_id as int]),
            moved ==> forall|k: int|
                0 <= k < old(self)@.len() && k != source_id && k != dest_id ==> final(self)@[k]
                    == old(self)@[k],
            moved && source_id != dest_id ==> loads(final(self)@) == loads(old(self)@).update(
                source_id as int,
                sum_seq(old(self)@[source_id as int]) - old(
                    self,
                )@[source_id as int][task_id as int],
            ).update(
                dest_id as int,
                sum_seq(old(self)@[dest_id as int]) + old(self)@[source_id as int][task_id as int],
            ),
            moved && source_id == dest_id ==> loads(final(self)@) == loads(old(self)@),
    {
        let n = self.machines[source_id].task_count();
        if task_id >= n {
            return false;
        }
        let ghost g0 = self@;
        let mut m = self.machines.remove(source_id);
        let t = m.remove_task(task_id);
        self.machines.insert(source_id, m);
        let ghost gmid = self@;
        let mut d = self.machines.remove(dest_id);
        d.add_task(t);
        self.machines.insert(dest_id, d);
        proof {
            broadcast use group_multiset_axioms;
            broadcast use group_to_multiset_ensures;

            let s = source_id as int;
            let dd = dest_id as int;
            let pos = task_id as int;
            let src0 = g0[s];
            let tt = src0[pos];
            let src1 = swap_removed(src0, pos);

            lemma_view_remove_insert(old(self).machines@, s, m);
            assert(gmid == g0.update(s, src1));
            lemma_view_remove_insert(
                old(self).machines@.remove(s).insert(s, m),
                dd,
                d,
            );
            let g2 = gmid.update(dd, gmid[dd].push(tt));
            assert(self@ == g2);

            lemma_swap_removed(src0, pos);
            lemma_sum_seq_push(gmid[dd], tt);

            // Loads: the source loses the moved duration, the destination
            // gains it.
            lemma_loads_update(g0, s, src1);
            lemma_loads_update(gmid, dd, gmid[dd].push(tt));
            lemma_sum_int_update(loads(g0), s, sum_seq(src0) - tt);
            lemma_sum_int_update(loads(gmid), dd, sum_seq(gmid[dd]) + tt);
            if s == dd {
                assert(loads(g2) =~= loads(g0));
            }

            // The task multiset is conserved.
            lemma_group_mset_update(g0, s, src1);
            lemma_group_mset_update(gmid, dd, gmid[dd].push(tt));
            lemma_group_mset_contains(g0, s, pos);
            assert(src0.to_multiset().count(tt) >= 1) by {
                assert(src0.contains(tt));
            }
            assert forall|v: i32| group_mset(g2).count(v) == group_mset(g0).count(v) by {
                assert(group_mset(gmid).add(g0[s].to_multiset()).count(v) == group_mset(g0).add(
                    src1.to_multiset(),
                ).count(v));
                assert(group_mset(g2).add(gmid[dd].to_multiset()).count(v) == group_mset(gmid).add(
                    gmid[dd].push(tt).to_multiset(),
                ).count(v));
                assert(gmid[dd].push(tt).to_multiset() == gmid[dd].to_multiset().insert(tt));
                assert(src1.to_multiset() == src0.to_multiset().remove(tt));
            }
            assert(group_mset(g2) =~= group_mset(g0));

            // Positivity is preserved: every task in the new state was a
            // task in the old one.
            assert(all_pos(src0));
            assert(tt >= 1);
            assert forall|k: int| 0 <= k < g2.len() implies all_pos(#[trigger] g2[k]) by {
                assert(all_pos(gmid[dd].push(tt))) by {
                    if dd != s {
                        assert(gmid[dd] == g0[dd]);
                    }
                    lemma_sum_seq_push(gmid[dd], tt);
                }
                if k != s && k != dd {
                    assert(g2[k] == g0[k]);
                }
            }
        }
        true
    }
}

/// The number of tasks on each machine.
pub open spec fn counts(g: Seq<Seq<i32>>) -> Seq<int> {
    Seq::new(g.len(), |i: int| g[i].len() as int)
}

/// The number of tasks across all machines.
pub open spec fn total_count(g: Seq<Seq<i32>>) -> int {
    sum_int(counts(g))
}

/// Within a well-formed group every machine on its own is well-formed, so
/// its load can be queried.
pub proof fn lemma_machine_wf_of_group(g: Seq<Seq<i32>>, i: int)
    requires
        group_wf(g),
        0 <= i < g.len(),
    ensures
        machine_wf(g[i]),
{
    lemma_max_load_le_total(g);
}

impl MachineGroup {
    /// The sum of the loads of all machines: the group's total load.
    pub fn group_makespan(&self) -> (total: i32)
        requires
            self.wf(),
        ensures
            total == total_load(self@),
    {
        let mut acc: i32 = 0;
        let mut i: usize = 0;
        while i < self.machines.len()
            invariant
                self.wf(),
                i <= self@.len(),
                acc == sum_int(loads(self@).take(i as int)),
            decreases self@.len() - i,
        {
            proof {
                lemma_loads_nonneg(self@);
                lemma_machine_wf_of_group(self@, i as int);
                lemma_sum_int_take_succ(loads(self@), i as int);
                lemma_sum_int_take_bounds(loads(self@), i as int);
                lemma_sum_int_take_bounds(loads(self@), i as int + 1);
            }
            acc = acc + self.machines[i].makespan();
            i = i + 1;
        }
        proof {
            assert(loads(self@).take(self@.len() as int) =~= loads(self@));
        }
        acc
    }

    /// The machine with the maximum load; ties broken by the lowest index.
    pub fn max_makespan_machine(&self) -> (id: usize)
        requires
            self.wf(),
        ensures
            is_first_max_index(self@, id as int),
            sum_seq(self@[id as int]) == max_load(self@),
    {
        proof {
            lemma_machine_wf_of_group(self@, 0);
        }
        let mut best = self.machines[0].makespan();
        let mut best_idx: usize = 0;
        let mut i: usize = 1;
        while i < self.machines.len()
            invariant
                self.wf(),
                1 <= i <= self@.len(),
                best_idx < i,
                best == sum_seq(self@[best_idx as int]),
                forall|j: int| 0 <= j < i ==> sum_seq(#[trigger] self@[j]) <= best,
                forall|j: int| 0 <= j < best_idx ==> sum_seq(#[trigger] self@[j]) < best,
            decreases self@.len() - i,
        {
            proof {
                lemma_machine_wf_of_group(self@, i as int);
            }
            let l = self.machines[i].makespan();
            if l > best {
                best = l;
                best_idx = i;
            }
            i = i + 1;
        }
        proof {
            assert(loads(self@)[best_idx as int] == best);
            assert forall|j: int| 0 <= j < loads(self@).len() implies loads(self@)[j]
                <= best as int by {
                assert(sum_seq(self@[j]) <= best);
            }
            lemma_seq_max_is(loads(self@), best as int);
        }
        best_idx
    }

    /// The machine with the minimum load; ties broken by the lowest index.
    pub fn min_makespan_machine(&self) -> (id: usize)
        requires
            self.wf(),
        ensures
            is_first_min_index(self@, id as int),
            sum_seq(self@[id as int]) == min_load(self@),
    {
        proof {
            lemma_machine_wf_of_group(self@, 0);
        }
        let mut best = self.machines[0].makespan();
        let mut best_idx: usize = 0;
        let mut i: usize = 1;
        while i < self.machines.len()
            invariant
                self.wf(),
                1 <= i <= self@.len(),
                best_idx < i,
                best == sum_seq(self@[best_idx as int]),
                forall|j: int| 0 <= j < i ==> best <= sum_seq(#[trigger] self@[j]),
                forall|j: int| 0 <= j < best_idx ==> best < sum_seq(#[trigger] self@[j]),
            decreases self@.len() - i,
        {
            proof {
                lemma_machine_wf_of_group(self@, i as int);
            }
            let l = self.machines[i].makespan();
            if l < best {
                best = l;
                best_idx = i;
            }
            i = i + 1;
        }
        proof {
            assert(loads(self@)[best_idx as int] == best);
            assert forall|j: int| 0 <= j < loads(self@).len() implies best as int
                <= loads(self@)[j] by {
                assert(best <= sum_seq(self@[j]));
            }
            lemma_seq_min_is(loads(self@), best as int);
        }
        best_idx
    }

    /// The group's makespan: the maximum load over all machines.
    pub fn group_max_makespan(&self) -> (max_span: usize)
        requires
            self.wf(),
        ensures
            max_span == max_load(self@),
    {
        let id = self.max_makespan_machine();
        proof {
            lemma_machine_wf_of_group(self@, id as int);
            lemma_loads_nonneg(self@);
            assert(loads(self@)[id as int] >= 0);
        }
        let l = self.machines[id].makespan();
        l as usize
    }

    /// The total number of tasks across all machines.
    pub fn tasks_count(&self) -> (count: usize)
        requires
            self.wf(),
        ensures
            count == total_count(self@),
    {
        let mut acc: usize = 0;
        let mut i: usize = 0;
        while i < self.machines.len()
            invariant
                self.wf(),
                i <= self@.len(),
                acc == sum_int(counts(self@).take(i as int)),
            decreases self@.len() - i,
        {
            proof {
                lemma_loads_nonneg(self@);
                let cs = counts(self@);
                let ls = loads(self@);
                assert forall|j: int| 0 <= j < cs.len() implies 0 <= #[trigger] cs[j] && cs[j]
                    <= ls[j] by {
                    lemma_sum_seq_ge_len(self@[j]);
                }
                lemma_sum_int_take_succ(cs, i as int);
                lemma_sum_int_take_bounds(cs, i as int);
                lemma_sum_int_take_bounds(cs, i as int + 1);
                assert(cs.take(i as int + 1) =~= cs.subrange(0, i as int + 1));
                lemma_sum_int_pointwise_le(cs.take(i as int + 1), ls.take(i as int + 1));
                lemma_sum_int_take_bounds(ls, i as int + 1);
            }
            acc = acc + self.machines[i].task_count();
            i = i + 1;
        }
        proof {
            assert(counts(self@).take(self@.len() as int) =~= counts(self@));
        }
        acc
    }

    /// The last task on the machine, without removing it.
    pub fn peek_task(&self, mach_id: usize) -> (r: Option<i32>)
        requires
            mach_id < self@.len(),
        ensures
            self@[mach_id as int].len() == 0 ==> r is None,
            self@[mach_id as int].len() > 0 ==> r == Some(self@[mach_id as int].last()),
    {
        let n = self.machines[mach_id].task_count();
        if n == 0 {
            None
        } else {
            Some(self.machines[mach_id].task_at(n - 1))
        }
    }

    /// The highest-duration task on the machine and its position; ties break
    /// to the first occurrence. Absent exactly when the machine is empty.
    pub fn peek_highest_task(&self, mach_id: usize) -> (r: Option<(i32, usize)>)
        requires
            mach_id < self@.len(),
        ensures
            (r is None) <==> self@[mach_id as int].len() == 0,
            r matches Some(p) ==> (p.1 as int) < self@[mach_id as int].len(),
            r matches Some(p) ==> p.0 == self@[mach_id as int][p.1 as int],
            r matches Some(p) ==> forall|j: int|
                0 <= j < self@[mach_id as int].len() ==> self@[mach_id as int][j] <= p.0,
            r matches Some(p) ==> forall|j: int| 0 <= j < p.1 ==> self@[mach_id as int][j] < p.0,
            r matches Some(p) ==> is_first_highest_pos(self@[mach_id as int], p.1 as int),
    {
        let m = &self.machines[mach_id];
        let n = m.task_count();
        if n == 0 {
            return None;
        }
        let mut best = m.task_at(0);
        let mut best_idx: usize = 0;
        let mut i: usize = 1;
        while i < n
            invariant
                m@ == self@[mach_id as int],
                n == m@.len(),
                1 <= i <= n,
                best_idx < i,
                best == m@[best_idx as int],
                forall|j: int| 0 <= j < i ==> m@[j] <= best,
                forall|j: int| 0 <= j < best_idx ==> m@[j] < best,
            decreases n - i,
        {
            let t = m.task_at(i);
            if t > best {
                best = t;
                best_idx = i;
            }
            i = i + 1;
        }
        Some((best, best_idx))
    }

    /// The machine after `target` in the fixed order: the static-neighbor
    /// selection policy. Absent when `target` has no machine after it, so
    /// every returned id is a valid machine index.
    pub fn neighbor_id(&self, target: usize) -> (r: Option<usize>)
        ensures
            target + 1 < self@.len() ==> r == Some((target + 1) as usize),
            target + 1 >= self@.len() ==> r is None,
    {
        let n = self.machines.len();
        if target < n && target + 1 < n {
            Some(target + 1)
        } else {
            None
        }
    }

    /// A copy of the machine list; simulated annealing snapshots the best
    /// assignment seen with it.
    pub fn machines_clone(&self) -> (ms: Vec<Machine>)
        ensures
            machines_view(ms@) == self@,
    {
        let mut ms: Vec<Machine> = Vec::new();
        let mut i: usize = 0;
        while i < self.machines.len()
            invariant
                i <= self@.len(),
                ms@.len() == i,
                forall|j: int| 0 <= j < i ==> #[trigger] ms@[j]@ == self@[j],
            decreases self@.len() - i,
        {
            ms.push(self.machines[i].clone());
            i = i + 1;
        }
        proof {
            assert(machines_view(ms@) =~= self@);
        }
        ms
    }

    /// Replaces the machine list wholesale, restoring a snapshot.
    pub fn replace_machine_list(&mut self, machines: Vec<Machine>)
        requires
            group_wf(machines_view(machines@)),
        ensures
            final(self).wf(),
            final(self)@ == machines_view(machines@),
    {
        self.machines = machines;
    }
}

/// A group of empty machines has zero loads and an empty task multiset.
proof fn lemma_all_empty_facts(g: Seq<Seq<i32>>)
    requires
        g.len() >= 1,
        forall|i: int| 0 <= i < g.len() ==> #[trigger] g[i].len() == 0,
    ensures
        group_wf(g),
        total_load(g) == 0,
        max_load(g) == 0,
        group_mset(g) == Multiset::<i32>::empty(),
{
    broadcast use group_multiset_axioms;
    broadcast use group_to_multiset_ensures;

    assert forall|i: int| 0 <= i < g.len() implies 0 == #[trigger] loads(g)[i] by {
        assert(g[i] =~= Seq::<i32>::empty());
    }
    lemma_zero_sum(loads(g));
    lemma_seq_max_is(loads(g), 0);
    lemma_empty_mset(g);
}

proof fn lemma_zero_sum(s: Seq<int>)
    requires
        forall|i: int| 0 <= i < s.len() ==> 0 == #[trigger] s[i],
    ensures
        sum_int(s) == 0,
    decreases s.len(),
{
    if s.len() > 0 {
        lemma_zero_sum(s.drop_last());
    }
}

proof fn lemma_empty_mset(g: Seq<Seq<i32>>)
    requires
        forall|i: int| 0 <= i < g.len() ==> #[trigger] g[i].len() == 0,
    ensures
        group_mset(g) == Multiset::<i32>::empty(),
    decreases g.len(),
{
    broadcast use group_multiset_axioms;
    broadcast use group_to_multiset_ensures;

    if g.len() > 0 {
        lemma_empty_mset(g.drop_last());
        assert(g.last().to_multiset().len() == 0);
        assert(group_mset(g) =~= Multiset::<i32>::empty());
    }
}

} // verus!
