//! The scan scheduler's bookkeeping: the cross-product task set, the
//! concurrency cap, and the result sink. The driver asks for tasks with
//! `try_start`, runs each probe, and hands the outcome back with
//! `complete`; the ledger here guarantees that the cap never admits more
//! than `limit` tasks at once and that a finished run holds exactly one
//! result per task.

use vstd::prelude::*;
use vstd::multiset::Multiset;
use crate::report::ScanResult;

verus! {

broadcast use vstd::seq_lib::group_to_multiset_ensures;

/// One probe: a host to connect to on a port.
pub struct ScanTask {
    pub host: String,
    pub port: u16,
}

/// The address-and-port pair a task stands for.
pub open spec fn task_pair(t: ScanTask) -> (Seq<char>, u16) {
    (t.host@, t.port)
}

/// The address-and-port pair a result reports on.
pub open spec fn result_pair(r: ScanResult) -> (Seq<char>, u16) {
    (r.host@, r.port)
}

/// How many of the first `n` tasks are done.
pub open spec fn count_done(done: Seq<bool>, n: int) -> int
    decreases n,
{
    if n <= 0 {
        0
    } else {
        count_done(done, n - 1) + if done[n - 1] {
            1int
        } else {
            0int
        }
    }
}

/// The pairs of the done tasks among the first `n`, as a multiset.
pub open spec fn done_pairs(tasks: Seq<ScanTask>, done: Seq<bool>, n: int) -> Multiset<
    (Seq<char>, u16),
>
    decreases n,
{
    if n <= 0 {
        Multiset::empty()
    } else {
        let rest = done_pairs(tasks, done, n - 1);
        if done[n - 1] {
            rest.insert(task_pair(tasks[n - 1]))
        } else {
            rest
        }
    }
}

/// The pairs of all of the first `n` tasks, as a multiset.
pub open spec fn task_pairs(tasks: Seq<ScanTask>, n: int) -> Multiset<(Seq<char>, u16)>
    decreases n,
{
    if n <= 0 {
        Multiset::empty()
    } else {
        task_pairs(tasks, n - 1).insert(task_pair(tasks[n - 1]))
    }
}

proof fn lemma_count_done_bound(done: Seq<bool>, n: int)
    requires
        n >= 0,
    ensures
        count_done(done, n) <= n,
        count_done(done, n) >= 0,
    decreases n,
{
    if n > 0 {
        lemma_count_done_bound(done, n - 1);
    }
}

/// The count over a region of not-done slots does not grow.
proof fn lemma_count_done_tail(done: Seq<bool>, m: int, n: int)
    requires
        0 <= m <= n,
        forall|i: int| m <= i < n ==> !(#[trigger] done[i]),
    ensures
        count_done(done, n) == count_done(done, m),
    decreases n - m,
{
    if m < n {
        lemma_count_done_tail(done, m, n - 1);
    }
}

/// A not-yet-done slot keeps the count strictly under `n`.
proof fn lemma_count_done_missing(done: Seq<bool>, n: int, idx: int)
    requires
        0 <= idx < n,
        !done[idx],
    ensures
        count_done(done, n) <= n - 1,
    decreases n,
{
    lemma_count_done_bound(done, n - 1);
    if idx < n - 1 {
        lemma_count_done_missing(done, n - 1, idx);
    }
}

/// Marking one open slot done raises the count by one.
proof fn lemma_count_done_update(done: Seq<bool>, n: int, idx: int)
    requires
        0 <= idx < done.len(),
        !done[idx],
        n <= done.len(),
    ensures
        count_done(done.update(idx, true), n) == count_done(done, n) + if idx < n {
            1int
        } else {
            0int
        },
    decreases n,
{
    if n > 0 {
        lemma_count_done_update(done, n - 1, idx);
    }
}

/// Marking one open slot done adds exactly its pair to the multiset.
proof fn lemma_done_pairs_update(tasks: Seq<ScanTask>, done: Seq<bool>, n: int, idx: int)
    requires
        0 <= idx < done.len(),
        !done[idx],
        n <= done.len(),
        done.len() == tasks.len(),
    ensures
        done_pairs(tasks, done.update(idx, true), n) == if idx < n {
            done_pairs(tasks, done, n).insert(task_pair(tasks[idx]))
        } else {
            done_pairs(tasks, done, n)
        },
    decreases n,
{
    if n > 0 {
        lemma_done_pairs_update(tasks, done, n - 1, idx);
        let du = done.update(idx, true);
        if idx == n - 1 {
            assert(done_pairs(tasks, du, n) =~= done_pairs(tasks, done, n).insert(
                task_pair(tasks[idx]),
            ));
        } else if idx < n - 1 {
            if done[n - 1] {
                assert(done_pairs(tasks, du, n) =~= done_pairs(tasks, done, n).insert(
                    task_pair(tasks[idx]),
                ));
            }
        }
    }
}

/// When every slot is counted done, the done pairs are all the pairs.
proof fn lemma_done_pairs_full(tasks: Seq<ScanTask>, done: Seq<bool>, n: int)
    requires
        n <= done.len(),
        count_done(done, n) == n,
    ensures
        done_pairs(tasks, done, n) == task_pairs(tasks, n),
    decreases n,
{
    if n > 0 {
        lemma_count_done_bound(done, n - 1);
        assert(done[n - 1]);
        lemma_done_pairs_full(tasks, done, n - 1);
    }
}

/// The ledger of one scan run.
pub struct ScanScheduler {
    /// The task universe: every host crossed with every port.
    pub tasks: Vec<ScanTask>,
    /// Which tasks have completed.
    pub done: Vec<bool>,
    /// How many tasks have been handed out.
    pub next: usize,
    /// How many handed-out tasks have not completed yet.
    pub in_flight: usize,
    /// The hard cap on concurrently running tasks.
    pub limit: usize,
    /// Every recorded outcome, in completion order.
    pub results: Vec<ScanResult>,
}

impl ScanScheduler {
    /// The ledger's invariant: the cap never exceeds `limit`, and the
    /// recorded results are exactly one per completed task.
    pub open spec fn wf(self) -> bool {
        &&& self.limit >= 1
        &&& self.done@.len() == self.tasks@.len()
        &&& self.next <= self.tasks@.len()
        &&& (forall|i: int| 0 <= i < self.done@.len() && #[trigger] self.done@[i] ==> i < self.next)
        &&& self.in_flight as int == self.next as int - count_done(
            self.done@,
            self.done@.len() as int,
        )
        &&& self.in_flight <= self.limit
        &&& self.results@.len() == count_done(self.done@, self.done@.len() as int)
        &&& self.results@.map_values(|r: ScanResult| result_pair(r)).to_multiset() == done_pairs(
            self.tasks@,
            self.done@,
            self.done@.len() as int,
        )
    }

    /// A fresh ledger over the cross product of `hosts` and `ports`.
    pub fn new(hosts: &Vec<String>, ports: &Vec<u16>, limit: usize) -> (s: ScanScheduler)
        requires
            limit >= 1,
            hosts@.len() * ports@.len() <= usize::MAX,
        ensures
            s.wf(),
            s.tasks@.len() == hosts@.len() * ports@.len(),
            forall|k: int|
                0 <= k < s.tasks@.len() ==> #[trigger] s.tasks@[k].host@ == hosts@[k
                    / ports@.len() as int]@ && s.tasks@[k].port == ports@[k % ports@.len() as int],
            s.next == 0,
            s.in_flight == 0,
            s.limit == limit,
            s.results@.len() == 0,
    {
        let np = ports.len();
        let mut tasks: Vec<ScanTask> = Vec::new();
        let mut done: Vec<bool> = Vec::new();
        let mut i: usize = 0;
        while i < hosts.len()
            invariant
                i <= hosts@.len(),
                np == ports@.len(),
                hosts@.len() * ports@.len() <= usize::MAX,
                tasks@.len() == i * np,
                done@.len() == tasks@.len(),
                forall|k: int| 0 <= k < done@.len() ==> !(#[trigger] done@[k]),
                forall|k: int|
                    0 <= k < tasks@.len() ==> #[trigger] tasks@[k].host@ == hosts@[k
                        / np as int]@ && tasks@[k].port == ports@[k % np as int],
            decreases hosts@.len() - i,
        {
            let mut j: usize = 0;
            proof {
                assert((i + 1) * np <= hosts@.len() * np) by (nonlinear_arith)
                    requires
                        i < hosts@.len(),
                        np >= 0,
                ;
            }
            while j < np
                invariant
                    j <= np,
                    i < hosts@.len(),
                    np == ports@.len(),
                    hosts@.len() * ports@.len() <= usize::MAX,
                    (i + 1) * np <= hosts@.len() * np,
                    tasks@.len() == i * np + j,
                    done@.len() == tasks@.len(),
                    forall|k: int| 0 <= k < done@.len() ==> !(#[trigger] done@[k]),
                    forall|k: int|
                        0 <= k < tasks@.len() ==> #[trigger] tasks@[k].host@ == hosts@[k
                            / np as int]@ && tasks@[k].port == ports@[k % np as int],
                decreases np - j,
            {
                proof {
                    assert(i * np + j + 1 <= (i + 1) * np) by (nonlinear_arith)
                        requires
                            j < np,
                    ;
                }
                let t = ScanTask { host: hosts[i].clone(), port: ports[j] };
                proof {
                    vstd::arithmetic::div_mod::lemma_fundamental_div_mod_converse(
                        (i * np + j) as int,
                        np as int,
                        i as int,
                        j as int,
                    );
                }
                tasks.push(t);
                done.push(false);
                j = j + 1;
            }
            proof {
                assert(i * np + np == (i + 1) * np) by (nonlinear_arith);
            }
            i = i + 1;
        }
        let s = ScanScheduler { tasks, done, next: 0, in_flight: 0, limit, results: Vec::new() };
        proof {
            lemma_count_zero(s.done@, s.done@.len() as int);
            lemma_pairs_zero(s.tasks@, s.done@, s.done@.len() as int);
            assert(s.results@.map_values(|r: ScanResult| result_pair(r)) =~= Seq::<
                (Seq<char>, u16),
            >::empty());
            assert(Seq::<(Seq<char>, u16)>::empty().to_multiset() =~= Multiset::<
                (Seq<char>, u16),
            >::empty());
        }
        s
    }

    /// Hands out the next task when the cap has room and tasks remain;
    /// the in-flight count never passes `limit`.
    pub fn try_start(&mut self) -> (r: Option<(usize, ScanTask)>)
        requires
            old(self).wf(),
        ensures
            final(self).wf(),
            final(self).tasks@ == old(self).tasks@,
            final(self).done@ == old(self).done@,
            final(self).limit == old(self).limit,
            final(self).results@ == old(self).results@,
            match r {
                Some((idx, t)) => {
                    &&& old(self).in_flight < old(self).limit
                    &&& old(self).next < old(self).tasks@.len()
                    &&& idx == old(self).next
                    &&& t.host@ == old(self).tasks@[idx as int].host@
                    &&& t.port == old(self).tasks@[idx as int].port
                    &&& final(self).next == old(self).next + 1
                    &&& final(self).in_flight == old(self).in_flight + 1
                },
                None => {
                    &&& (old(self).in_flight >= old(self).limit || old(self).next >= old(
                        self,
                    ).tasks@.len())
                    &&& final(self).next == old(self).next
                    &&& final(self).in_flight == old(self).in_flight
                },
            },
    {
        if self.in_flight < self.limit && self.next < self.tasks.len() {
            let idx = self.next;
            let t = ScanTask {
                host: self.tasks[idx].host.clone(),
                port: self.tasks[idx].port,
            };
            self.next = idx + 1;
            self.in_flight = self.in_flight + 1;
            Some((idx, t))
        } else {
            None
        }
    }

    /// Records the outcome of a handed-out task exactly once, freeing its
    /// slot under the cap.
    pub fn complete(&mut self, idx: usize, result: ScanResult)
        requires
            old(self).wf(),
            idx < old(self).next,
            !old(self).done@[idx as int],
            result.host@ == old(self).tasks@[idx as int].host@,
            result.port == old(self).tasks@[idx as int].port,
        ensures
            final(self).wf(),
            final(self).tasks@ == old(self).tasks@,
            final(self).done@ == old(self).done@.update(idx as int, true),
            final(self).limit == old(self).limit,
            final(self).next == old(self).next,
            final(self).in_flight == old(self).in_flight - 1,
            final(self).results@ == old(self).results@.push(result),
    {
        proof {
            let n = self.done@.len() as int;
            assert forall|i: int| self.next <= i < n implies !(#[trigger] self.done@[i]) by {
                if self.done@[i] {
                    assert(i < self.next);
                }
            }
            lemma_count_done_tail(self.done@, self.next as int, n);
            lemma_count_done_missing(self.done@, self.next as int, idx as int);
            assert(self.in_flight >= 1);
        }
        let ghost old_done = self.done@;
        let ghost n = self.done@.len() as int;
        self.done.set(idx, true);
        self.in_flight = self.in_flight - 1;
        self.results.push(result);
        proof {
            lemma_count_done_update(old_done, n, idx as int);
            lemma_done_pairs_update(self.tasks@, old_done, n, idx as int);
            let m = old(self).results@.map_values(|r: ScanResult| result_pair(r));
            assert(self.results@.map_values(|r: ScanResult| result_pair(r)) =~= m.push(
                result_pair(result),
            ));
            assert(m.push(result_pair(result)).to_multiset() =~= m.to_multiset().insert(
                result_pair(result),
            ));
            assert(task_pair(self.tasks@[idx as int]) == result_pair(result));
        }
    }

    /// Whether every task has been handed out and completed.
    pub fn is_finished(&self) -> (r: bool)
        requires
            self.wf(),
        ensures
            r == (self.next == self.tasks@.len() && self.in_flight == 0),
    {
        self.next == self.tasks.len() && self.in_flight == 0
    }

    /// The recorded results.
    pub fn results_ref(&self) -> (r: &Vec<ScanResult>)
        ensures
            r@ == self.results@,
    {
        &self.results
    }
}

proof fn lemma_count_zero(done: Seq<bool>, n: int)
    requires
        forall|k: int| 0 <= k < done.len() ==> !(#[trigger] done[k]),
        n <= done.len(),
    ensures
        count_done(done, n) == 0,
    decreases n,
{
    if n > 0 {
        lemma_count_zero(done, n - 1);
    }
}

proof fn lemma_pairs_zero(tasks: Seq<ScanTask>, done: Seq<bool>, n: int)
    requires
        forall|k: int| 0 <= k < done.len() ==> !(#[trigger] done[k]),
        n <= done.len(),
    ensures
        done_pairs(tasks, done, n) == Multiset::<(Seq<char>, u16)>::empty(),
    decreases n,
{
    if n > 0 {
        lemma_pairs_zero(tasks, done, n - 1);
    }
}

/// The cap's guarantee: a well-formed ledger never has more than `limit`
/// tasks in flight.
pub proof fn lemma_concurrency_bounded(s: ScanScheduler)
    requires
        s.wf(),
    ensures
        s.in_flight <= s.limit,
{
}

/// The completeness guarantee: when every task has been handed out and
/// completed, the recorded results are exactly one per task — the result
/// multiset of address-and-port pairs equals the task multiset, whatever
/// the completion order and whatever the concurrency limit was.
pub proof fn lemma_run_complete(s: ScanScheduler)
    requires
        s.wf(),
        s.next == s.tasks@.len(),
        s.in_flight == 0,
    ensures
        s.results@.len() == s.tasks@.len(),
        s.results@.map_values(|r: ScanResult| result_pair(r)).to_multiset() == task_pairs(
            s.tasks@,
            s.tasks@.len() as int,
        ),
{
    let n = s.done@.len() as int;
    lemma_count_done_bound(s.done@, n);
    assert(count_done(s.done@, n) == n);
    lemma_done_pairs_full(s.tasks@, s.done@, n);
}

} // verus!
