//! The named queues of a dispatcher: admission by name, deletion, the
//! cross-queue choice of the next job for a resource offer, the commit of a
//! dispatched job, and reconciliation with what the vertices still run.
use vstd::prelude::*;

use crate::jobs::{JobConfiguration, JobSpec};
use crate::queue::{
    clear_of_drawn_ids, id_in_use, entry_views, restored, EntrySpec, admits, candidate_views, candidates, keep_ids, lemma_keep_ids, lemma_promoted_keeps,
    lemma_wf_remove, lemma_without_id, merged_job, promoted, queue_wf, without_id, CandidateSpec,
    Queue, QueueSpec,
};
use crate::resources::{
    accepts, accepts_exclusive, lemma_countables_le_trans, find_key,
    properties_le, ProviderSpec, RequirementSpec, ResourcesProvider,
};
use crate::util::{fresh_task_id, now_to_secs};

verus! {

/// The meaning of a group: its queues with their names, in order.
pub type GroupSpec = Seq<(Seq<char>, QueueSpec)>;

/// The meaning of a choice: task id, job, queue name, priority.
pub type ChoiceSpec = (Seq<char>, JobSpec, Seq<char>, int);

/// All named queues of a dispatcher.
pub struct QueueGroup(pub Vec<(String, Queue)>);

pub open spec fn group_views(v: Seq<(String, Queue)>) -> GroupSpec {
    v.map_values(|e: (String, Queue)| (e.0@, e.1@))
}

impl View for QueueGroup {
    type V = GroupSpec;

    open spec fn view(&self) -> GroupSpec {
        group_views(self.0@)
    }
}

/// Every queue of the group is well formed.
pub open spec fn group_wf(g: GroupSpec) -> bool {
    &&& forall|i: int| 0 <= i < g.len() ==> queue_wf(#[trigger] g[i].1)
    &&& ids_unique_across(g)
}

/// No task id is pending in two queues of the group.
pub open spec fn ids_unique_across(g: GroupSpec) -> bool {
    forall|i: int, j: int, a: int, b: int|
        0 <= i < g.len() && 0 <= j < g.len() && i != j && 0 <= a < g[i].1.pending.len() && 0 <= b
            < g[j].1.pending.len() ==> (#[trigger] g[i].1.pending[a]).0 != (#[trigger] g[j].1.pending[b]).0
}

/// No queue of the group holds an id of the 36 characters of a freshly
/// drawn id.
pub open spec fn group_clear_of_drawn_ids(g: GroupSpec) -> bool {
    forall|j: int| 0 <= j < g.len() ==> clear_of_drawn_ids(#[trigger] g[j].1)
}

/// Some queue of the group holds a pending entry with id `id`.
pub open spec fn pending_anywhere(g: GroupSpec, id: Seq<char>) -> bool {
    exists|i: int| 0 <= i < g.len() && holds_pending(#[trigger] g[i].1, id)
}

/// Replacing queue `i` keeps task ids unique across the group where each
/// pending id of the new queue was pending in the old one or is pending in
/// no other queue.
pub proof fn lemma_unique_after_update(g: GroupSpec, i: int, e: (Seq<char>, QueueSpec))
    requires
        ids_unique_across(g),
        0 <= i < g.len(),
        forall|a: int|
            0 <= a < e.1.pending.len() ==> holds_pending(g[i].1, (#[trigger] e.1.pending[a]).0)
                || forall|j: int| 0 <= j < g.len() && j != i ==> !holds_pending(#[trigger] g[j].1, e.1.pending[a].0),
    ensures
        ids_unique_across(g.update(i, e)),
{
    let g2 = g.update(i, e);
    assert forall|x: int, y: int, a: int, b: int|
        0 <= x < g2.len() && 0 <= y < g2.len() && x != y && 0 <= a < g2[x].1.pending.len() && 0 <= b
            < g2[y].1.pending.len() implies (#[trigger] g2[x].1.pending[a]).0 != (#[trigger] g2[y].1.pending[b]).0 by {
        if x == i {
            let id = e.1.pending[a].0;
            if holds_pending(g[i].1, id) {
                let a0 = choose|k: int| 0 <= k < g[i].1.pending.len() && (#[trigger] g[i].1.pending[k]).0 == id;
                assert(g[i].1.pending[a0].0 != g[y].1.pending[b].0);
            } else {
                assert(!holds_pending(g[y].1, id));
                assert(g[y].1.pending[b] == g2[y].1.pending[b]);
            }
        } else if y == i {
            let id = e.1.pending[b].0;
            if holds_pending(g[i].1, id) {
                let b0 = choose|k: int| 0 <= k < g[i].1.pending.len() && (#[trigger] g[i].1.pending[k]).0 == id;
                assert(g[x].1.pending[a].0 != g[i].1.pending[b0].0);
            } else {
                assert(!holds_pending(g[x].1, id));
                assert(g[x].1.pending[a] == g2[x].1.pending[a]);
            }
        } else {
            assert(g[x].1.pending[a].0 != g[y].1.pending[b].0);
        }
    }
}

/// `i` is the first queue named `name`.
pub open spec fn first_named(g: GroupSpec, name: Seq<char>, i: int) -> bool {
    &&& 0 <= i < g.len()
    &&& g[i].0 == name
    &&& forall|j: int| 0 <= j < i ==> (#[trigger] g[j]).0 != name
}

/// No queue is named `name`.
pub open spec fn none_named(g: GroupSpec, name: Seq<char>) -> bool {
    forall|j: int| 0 <= j < g.len() ==> (#[trigger] g[j]).0 != name
}

/// The queue holds a pending entry with id `id`.
pub open spec fn holds_pending(q: QueueSpec, id: Seq<char>) -> bool {
    exists|k: int| 0 <= k < q.pending.len() && (#[trigger] q.pending[k]).0 == id
}

/// `g2` is `g` with `job` admitted as entry `id` to the first queue named
/// `name`, held, with the queue's properties merged into the job's.
pub open spec fn added(g: GroupSpec, g2: GroupSpec, name: Seq<char>, job: JobSpec, id: Seq<char>) -> bool {
    exists|i: int|
        first_named(g, name, i) && admits(g[i].1.config, job) && g2 == g.update(
            i,
            (
                name,
                QueueSpec {
                    pending: g[i].1.pending.push((id, merged_job(job, g[i].1.config.properties), None)),
                    ..g[i].1
                },
            ),
        )
}

/// No queue is named `name`, or the first one so named does not admit `job`.
pub open spec fn refused(g: GroupSpec, name: Seq<char>, job: JobSpec) -> bool {
    none_named(g, name) || exists|i: int| first_named(g, name, i) && !admits(g[i].1.config, job)
}

/// `r` and `g2` are the outcome of deleting entry `id` from `g` on behalf of
/// user `uid`: `None` where no queue holds it; otherwise, in the first queue
/// that does, the entry goes where the superuser or its owner asks
/// (`Some(Ok)`) and stays otherwise (`Some(Err)`).
pub open spec fn removal(g: GroupSpec, g2: GroupSpec, id: Seq<char>, uid: u32, r: Option<Result<(), ()>>) -> bool {
    &&& r is None <==> forall|i: int| 0 <= i < g.len() ==> !holds_pending(#[trigger] g[i].1, id)
    &&& r is None ==> g2 == g
    &&& r matches Some(res) ==> exists|i: int, k: int| {
        &&& 0 <= i < g.len()
        &&& forall|j: int| 0 <= j < i ==> !holds_pending(#[trigger] g[j].1, id)
        &&& 0 <= k < g[i].1.pending.len()
        &&& g[i].1.pending[k].0 == id
        &&& (res is Ok <==> (g[i].1.pending[k].1.uid == uid || uid == 0))
        &&& res is Ok ==> g2 == g.update(i, (g[i].0, QueueSpec { pending: g[i].1.pending.remove(k), ..g[i].1 }))
        &&& res is Err ==> g2 == g
    }
}

/// Whether provider `p` accepts requirement `r`, with or without its memory
/// nodes.
pub open spec fn fits(p: ProviderSpec, r: RequirementSpec, exclusive: bool) -> bool {
    if exclusive {
        accepts_exclusive(p, r)
    } else {
        accepts(p, r)
    }
}

/// A queue's ranked entries, each with the queue's name.
pub open spec fn tagged(c: Seq<CandidateSpec>, name: Seq<char>) -> Seq<ChoiceSpec> {
    c.map_values(|x: CandidateSpec| (x.0, x.1, name, x.3))
}

/// The entries of every queue that may run now, queue after queue, each in
/// the order of its queue.
pub open spec fn group_candidates(g: GroupSpec, now: u64) -> Seq<ChoiceSpec>
    decreases g.len(),
{
    if g.len() == 0 {
        Seq::empty()
    } else {
        group_candidates(g.drop_last(), now) + tagged(
            candidates(g.last().1, g.last().1.pending, now, true),
            g.last().0,
        )
    }
}

/// The index of the entry of highest priority that the provider accepts;
/// of several with that priority, the first.
pub open spec fn best_index(c: Seq<ChoiceSpec>, p: ProviderSpec, exclusive: bool) -> Option<int>
    decreases c.len(),
{
    if c.len() == 0 {
        None
    } else {
        let b = best_index(c.drop_last(), p, exclusive);
        let i = c.len() - 1;
        if fits(p, c[i].1.requirement, exclusive) && (b is None || c[i].3 > c[b->0].3) {
            Some(i)
        } else {
            b
        }
    }
}

/// What `best_index` picks: an accepted entry that no accepted entry
/// outranks, and that every earlier accepted entry ranks strictly below;
/// nothing only where nothing is accepted.
pub proof fn lemma_best_index(c: Seq<ChoiceSpec>, p: ProviderSpec, exclusive: bool)
    ensures
        best_index(c, p, exclusive) matches Some(i) ==> {
            &&& 0 <= i < c.len()
            &&& fits(p, c[i].1.requirement, exclusive)
            &&& forall|k: int|
                0 <= k < c.len() && fits(p, (#[trigger] c[k]).1.requirement, exclusive) ==> c[k].3
                    <= c[i].3
            &&& forall|k: int|
                0 <= k < i && fits(p, (#[trigger] c[k]).1.requirement, exclusive) ==> c[k].3 < c[i].3
        },
        best_index(c, p, exclusive) is None ==> forall|k: int|
            0 <= k < c.len() ==> !fits(p, (#[trigger] c[k]).1.requirement, exclusive),
    decreases c.len(),
{
    if c.len() > 0 {
        let d = c.drop_last();
        lemma_best_index(d, p, exclusive);
        assert forall|k: int| 0 <= k < d.len() implies #[trigger] d[k] == c[k] by {}
        let b = best_index(d, p, exclusive);
        let last = c.len() - 1;
        if fits(p, c[last].1.requirement, exclusive) && (b is None || c[last].3 > c[b->0].3) {
            assert forall|k: int|
                0 <= k < c.len() && fits(p, (#[trigger] c[k]).1.requirement, exclusive) implies c[k].3
                    <= c[last].3 by {
                if k < last {
                    assert(d[k] == c[k]);
                }
            }
            assert forall|k: int|
                0 <= k < last && fits(p, (#[trigger] c[k]).1.requirement, exclusive) implies c[k].3
                    < c[last].3 by {
                assert(d[k] == c[k]);
            }
        } else {
            if b is None {
                assert forall|k: int| 0 <= k < c.len() implies !fits(
                    p,
                    (#[trigger] c[k]).1.requirement,
                    exclusive,
                ) by {
                    if k < last {
                        assert(d[k] == c[k]);
                    }
                }
            } else {
                let j = b->0;
                assert forall|k: int|
                    0 <= k < c.len() && fits(p, (#[trigger] c[k]).1.requirement, exclusive) implies c[k].3
                        <= c[j].3 by {
                    if k < last {
                        assert(d[k] == c[k]);
                    }
                }
                assert forall|k: int|
                    0 <= k < j && fits(p, (#[trigger] c[k]).1.requirement, exclusive) implies c[k].3
                        < c[j].3 by {
                    assert(d[k] == c[k]);
                }
            }
        }
    }
}

/// An accepted entry outranks every entry of lower priority: the claim
/// never picks one ranked below an accepted entry.
pub proof fn lemma_lower_never_chosen(c: Seq<ChoiceSpec>, p: ProviderSpec, exclusive: bool, i: int, j: int)
    requires
        0 <= i < c.len(),
        0 <= j < c.len(),
        fits(p, c[i].1.requirement, exclusive),
        c[i].3 > c[j].3,
    ensures
        best_index(c, p, exclusive) != Some(j),
{
    lemma_best_index(c, p, exclusive);
}

/// Reconciliation frees a running slot: where the vertices no longer report
/// a job of user `u`, whose running jobs filled the user cap, every queued
/// entry of `u` (in a group whose own cap is not reached, with the queue's
/// total not capped) is offered for dispatch again.
pub proof fn lemma_reconcile_releases_slot(q: QueueSpec, ids: Set<Seq<char>>, t: int, k: int, now: u64)
    requires
        0 <= t < q.running.len(),
        !ids.contains(q.running[t].0),
        q.config.user_limit matches Some(l) && crate::queue::running_count(q.running, crate::queue::Scope::User(q.running[t].1.uid)) == l.max_running,
        0 <= k < q.pending.len(),
        q.pending[k].1.uid == q.running[t].1.uid,
        q.pending[k].2 is Some,
        !crate::queue::running_full_in(QueueSpec { running: keep_ids(q.running, ids), ..q }, crate::queue::Scope::All),
        !crate::queue::running_full_in(QueueSpec { running: keep_ids(q.running, ids), ..q }, crate::queue::Scope::Group(q.pending[k].1.gid)),
    ensures
        ({
            let q2 = QueueSpec { running: keep_ids(q.running, ids), ..q };
            exists|m: int| 0 <= m < candidates(q2, q2.pending, now, true).len() && (#[trigger] candidates(q2, q2.pending, now, true)[m]).0 == q.pending[k].0
        }),
{
    let q2 = QueueSpec { running: keep_ids(q.running, ids), ..q };
    let u = crate::queue::Scope::User(q.running[t].1.uid);
    crate::queue::lemma_keep_ids_frees_slot(q.running, ids, u, t);
    assert(!crate::queue::running_full_in(q2, crate::queue::Scope::User(q.pending[k].1.uid)));
    crate::queue::lemma_offered(q2, q2.pending, now, k);
}

pub open spec fn choice_views(v: Seq<(String, JobConfiguration, String, i128)>) -> Seq<ChoiceSpec> {
    v.map_values(|c: (String, JobConfiguration, String, i128)| (c.0@, c.1@, c.2@, c.3 as int))
}

/// The queue after a commit: the claimed entry at `k` leaves the pending
/// list, the job is recorded as running under `received`, and held entries
/// are promoted at `now`.
pub open spec fn committed(
    q: QueueSpec,
    k: int,
    received: Seq<char>,
    job: JobSpec,
    now: u64,
) -> QueueSpec {
    promoted(
        QueueSpec {
            pending: q.pending.remove(k),
            running: without_id(q.running, received).push((received, job)),
            ..q
        },
        0,
        now,
    )
}

/// The commit of `sent` as `received` can go through: the first queue named
/// `name` still holds `sent`, and no other of its pending entries is called
/// `received`.
pub open spec fn commit_allowed(g: GroupSpec, name: Seq<char>, sent: Seq<char>, received: Seq<char>) -> bool {
    exists|i: int|
        first_named(g, name, i) && holds_pending(g[i].1, sent) && (received == sent || !holds_pending(
            g[i].1,
            received,
        ))
}

/// `g2` is `g` after the commit of `sent` as `received` at `now`.
pub open spec fn commit_done(g: GroupSpec, g2: GroupSpec, name: Seq<char>, sent: Seq<char>, received: Seq<char>, job: JobSpec, now: u64) -> bool {
    exists|i: int, k: int| {
        &&& first_named(g, name, i)
        &&& 0 <= k < g[i].1.pending.len()
        &&& g[i].1.pending[k].0 == sent
        &&& g2 == g.update(i, (g[i].0, committed(g[i].1, k, received, job, now)))
    }
}

/// `g2` is `g` with the running jobs of every queue cut down to those whose
/// ids are in `ids`.
pub open spec fn keep_running_all(g: GroupSpec, g2: GroupSpec, ids: Set<Seq<char>>) -> bool {
    &&& g2.len() == g.len()
    &&& forall|i: int|
        0 <= i < g.len() ==> #[trigger] g2[i] == (
            g[i].0,
            QueueSpec { running: keep_ids(g[i].1.running, ids), ..g[i].1 },
        )
}

/// A commit moves exactly one entry: the claimed entry leaves the pending
/// list, the other entries keep their ids and jobs in their order, and the
/// job runs under the received id; the policy does not change.
pub proof fn lemma_commit_moves_one(q: QueueSpec, k: int, received: Seq<char>, job: JobSpec, now: u64)
    requires
        0 <= k < q.pending.len(),
    ensures
        committed(q, k, received, job, now).pending.len() == q.pending.len() - 1,
        forall|m: int|
            0 <= m < q.pending.len() - 1 ==> (#[trigger] committed(q, k, received, job, now).pending[m]).0
                == q.pending.remove(k)[m].0 && committed(q, k, received, job, now).pending[m].1
                == q.pending.remove(k)[m].1,
        committed(q, k, received, job, now).running == without_id(q.running, received).push(
            (received, job),
        ),
        committed(q, k, received, job, now).config == q.config,
{
    let q2 = QueueSpec {
        pending: q.pending.remove(k),
        running: without_id(q.running, received).push((received, job)),
        ..q
    };
    lemma_promoted_keeps(q2, 0, now);
}

/// Every entry offered for dispatch in a group is pending in one of its
/// queues.
pub proof fn lemma_group_candidates_pending(g: GroupSpec, now: u64)
    ensures
        forall|m: int|
            0 <= m < group_candidates(g, now).len() ==> pending_anywhere(g, (#[trigger] group_candidates(g, now)[m]).0),
    decreases g.len(),
{
    if g.len() > 0 {
        let d = g.drop_last();
        lemma_group_candidates_pending(d, now);
        let last = g.last().1;
        let t = tagged(candidates(last, last.pending, now, true), g.last().0);
        crate::queue::lemma_candidates_from(last, last.pending, now, true);
        let c = group_candidates(g, now);
        let p = group_candidates(d, now);
        assert(c == p + t);
        assert forall|m: int| 0 <= m < c.len() implies pending_anywhere(g, (#[trigger] c[m]).0) by {
            if m < p.len() {
                assert(c[m] == p[m]);
                let j = choose|j: int| 0 <= j < d.len() && holds_pending(#[trigger] d[j].1, p[m].0);
                assert(g[j] == d[j]);
                assert(holds_pending(g[j].1, c[m].0));
            } else {
                let n = m - p.len();
                assert(c[m] == t[n]);
                let cands = candidates(last, last.pending, now, true);
                let k = choose|k: int| 0 <= k < last.pending.len() && (#[trigger] last.pending[k]).0 == cands[n].0;
                assert(g[g.len() - 1].1 == last);
                assert(holds_pending(g[g.len() - 1].1, c[m].0));
            }
        }
    }
}

/// A commit after the claimed entry was deleted changes nothing: the id is
/// pending nowhere, the commit is refused, and no later claim offers it.
pub proof fn lemma_commit_after_delete(
    g: GroupSpec,
    g2: GroupSpec,
    id: Seq<char>,
    uid: u32,
    queue: Seq<char>,
    received: Seq<char>,
)
    requires
        group_wf(g),
        removal(g, g2, id, uid, Some(Ok(()))),
    ensures
        !pending_anywhere(g2, id),
        !commit_allowed(g2, queue, id, received),
        forall|now: u64, p: ProviderSpec, exclusive: bool|
            #[trigger] best_index(group_candidates(g2, now), p, exclusive) matches Some(k) ==> group_candidates(g2, now)[k].0 != id,
{
    let (i, k) = choose|i: int, k: int| {
        &&& 0 <= i < g.len()
        &&& forall|j: int| 0 <= j < i ==> !holds_pending(#[trigger] g[j].1, id)
        &&& 0 <= k < g[i].1.pending.len()
        &&& g[i].1.pending[k].0 == id
        &&& g2 == g.update(i, (g[i].0, QueueSpec { pending: g[i].1.pending.remove(k), ..g[i].1 }))
    };
    assert(queue_wf(g[i].1));
    assert forall|j: int| 0 <= j < g2.len() implies !holds_pending(#[trigger] g2[j].1, id) by {
        if holds_pending(g2[j].1, id) {
            let b = choose|b: int| 0 <= b < g2[j].1.pending.len() && (#[trigger] g2[j].1.pending[b]).0 == id;
            if j == i {
                let b0 = if b < k { b } else { b + 1 };
                assert(g2[j].1.pending[b] == g[i].1.pending[b0]);
                if b0 < k {
                    assert(g[i].1.pending[b0].0 != g[i].1.pending[k].0);
                } else {
                    assert(g[i].1.pending[k].0 != g[i].1.pending[b0].0);
                }
            } else {
                assert(g2[j] == g[j]);
                assert(g[i].1.pending[k].0 != g[j].1.pending[b].0);
            }
        }
    }
    assert forall|now: u64, p: ProviderSpec, exclusive: bool|
        (#[trigger] best_index(group_candidates(g2, now), p, exclusive)) is Some implies group_candidates(g2, now)[best_index(group_candidates(g2, now), p, exclusive)->0].0 != id by {
        lemma_best_index(group_candidates(g2, now), p, exclusive);
        lemma_group_candidates_pending(g2, now);
    }
}

/// Promotion keeps a queue well formed.
pub proof fn lemma_wf_promoted(q: QueueSpec, now: u64)
    requires
        queue_wf(q),
    ensures
        queue_wf(promoted(q, 0, now)),
{
    lemma_promoted_keeps(q, 0, now);
    let r = promoted(q, 0, now);
    assert forall|i: int, j: int| 0 <= i < j < r.pending.len() implies (#[trigger] r.pending[i]).0
        != (#[trigger] r.pending[j]).0 by {
        assert(r.pending[i].0 == q.pending[i].0);
        assert(r.pending[j].0 == q.pending[j].0);
    }
    assert forall|i: int, j: int| 0 <= i < r.pending.len() && 0 <= j < r.running.len() implies (
    #[trigger] r.pending[i]).0 != (#[trigger] r.running[j]).0 by {
        assert(r.pending[i].0 == q.pending[i].0);
    }
}

/// A commit keeps a queue well formed where the received id is not the id
/// of another pending entry.
pub proof fn lemma_wf_committed(q: QueueSpec, k: int, received: Seq<char>, job: JobSpec, now: u64)
    requires
        queue_wf(q),
        0 <= k < q.pending.len(),
        forall|m: int| 0 <= m < q.pending.len() && m != k ==> (#[trigger] q.pending[m]).0 != received,
    ensures
        queue_wf(committed(q, k, received, job, now)),
{
    lemma_wf_remove(q, k);
    let q1 = QueueSpec { pending: q.pending.remove(k), ..q };
    let q2 = QueueSpec { running: without_id(q.running, received).push((received, job)), ..q1 };
    lemma_without_id(q.running, received);
    assert forall|i: int, j: int| 0 <= i < q2.pending.len() && 0 <= j < q2.running.len() implies (
    #[trigger] q2.pending[i]).0 != (#[trigger] q2.running[j]).0 by {
        let i0 = if i < k { i } else { i + 1 };
        assert(q2.pending[i] == q.pending[i0]);
        if j < without_id(q.running, received).len() {
            let e = without_id(q.running, received)[j];
            assert(q.running.contains(e));
            let m = choose|m: int| 0 <= m < q.running.len() && q.running[m] == e;
            assert(q.pending[i0].0 != q.running[m].0);
        }
    }
    lemma_wf_promoted(q2, now);
}

impl QueueGroup {
    /// A group of the given named queues.
    pub fn new(queues: Vec<(String, Queue)>) -> (r: Self)
        ensures
            r@ == group_views(queues@),
    {
        QueueGroup(queues)
    }

    /// Admits `job` under the id `task_id` to the first queue named `queue`,
    /// as `Queue::add_with_id` does; `Err` where there is no such queue.
    pub fn add_with_id(&mut self, queue: &str, job: &JobConfiguration, task_id: String) -> (r: Result<String, ()>)
        requires
            group_wf(old(self)@),
        ensures
            group_wf(final(self)@),
            r is Ok <==> exists|i: int|
                first_named(old(self)@, queue@, i) && admits(old(self)@[i].1.config, job@)
                    && !id_in_use(old(self)@[i].1, task_id@) && !pending_anywhere(old(self)@, task_id@),
            r is Err ==> final(self)@ == old(self)@,
            r matches Ok(id) ==> id@ == task_id@ && added(old(self)@, final(self)@, queue@, job@, id@),
    {
        if self.holds_anywhere(&task_id) {
            return Err(());
        }
        let name = queue.to_owned();
        match find_key(&self.0, &name) {
            None => {
                proof {
                    assert forall|j: int| 0 <= j < self@.len() implies (#[trigger] self@[j]).0 != queue@ by {
                        assert(self.0@[j].0@ != name@);
                    }
                }
                Err(())
            },
            Some(i) => {
                proof {
                    assert(first_named(self@, queue@, i as int)) by {
                        assert forall|j: int| 0 <= j < i implies (#[trigger] self@[j]).0 != queue@ by {
                            assert(self.0@[j].0@ != name@);
                        }
                    }
                    assert forall|m: int| first_named(self@, queue@, m) implies m == i by {
                        if m < i {
                            assert(self.0@[m].0@ != name@);
                        } else if m > i {
                            assert(self@[i as int].0 != queue@);
                        }
                    }
                }
                let ghost g = self@;
                let (qname, mut q) = self.0.remove(i);
                assert(q@ == g[i as int].1);
                let ghost id = task_id@;
                let r = q.add_with_id(job, task_id);
                let ghost qv = q@;
                self.0.insert(i, (qname, q));
                assert(self@ =~= g.update(i as int, (g[i as int].0, qv)));
                proof {
                    if r is Err {
                        assert(self@ =~= g);
                    }
                    if r is Ok {
                        assert(first_named(g, queue@, i as int));
                        assert forall|a: int| 0 <= a < qv.pending.len() implies holds_pending(g[i as int].1, (#[trigger] qv.pending[a]).0)
                            || forall|j: int| 0 <= j < g.len() && j != i ==> !holds_pending(#[trigger] g[j].1, qv.pending[a].0) by {
                            if a < g[i as int].1.pending.len() {
                                assert(qv.pending[a] == g[i as int].1.pending[a]);
                            } else {
                                assert(qv.pending[a].0 == id);
                            }
                        }
                        lemma_unique_after_update(g, i as int, (g[i as int].0, qv));
                    }
                    assert forall|j: int| 0 <= j < self@.len() implies queue_wf(#[trigger] self@[j].1) by {
                        if j != i {
                            assert(self@[j] == g[j]);
                        }
                    }
                }
                r
            },
        }
    }

    /// Whether some queue holds a pending entry with id `id`.
    fn holds_anywhere(&self, id: &String) -> (r: bool)
        ensures
            r == pending_anywhere(self@, id@),
    {
        let mut i: usize = 0;
        while i < self.0.len()
            invariant
                0 <= i <= self.0.len(),
                forall|j: int| 0 <= j < i ==> !holds_pending(#[trigger] self@[j].1, id@),
            decreases self.0.len() - i,
        {
            if find_entry_in(&self.0[i].1, id).is_some() {
                assert(holds_pending(self@[i as int].1, id@));
                return true;
            }
            i = i + 1;
        }
        false
    }

    /// Admits `job` under a fresh random id to the first queue named
    /// `queue`, as `add_with_id` does.
    pub fn add_to_queue(&mut self, queue: &str, job: &JobConfiguration) -> (r: Result<String, ()>)
        requires
            group_wf(old(self)@),
        ensures
            group_wf(final(self)@),
            refused(old(self)@, queue@, job@) ==> r is Err,
            forall|i: int|
                first_named(old(self)@, queue@, i) && admits(old(self)@[i].1.config, job@)
                    && group_clear_of_drawn_ids(old(self)@) ==> r is Ok,
            r is Err ==> final(self)@ == old(self)@,
            r matches Ok(id) ==> added(old(self)@, final(self)@, queue@, job@, id@),
    {
        let id = fresh_task_id();
        proof {
            if group_clear_of_drawn_ids(self@) {
                assert forall|j: int| 0 <= j < self@.len() implies !holds_pending(#[trigger] self@[j].1, id@) by {
                    assert(clear_of_drawn_ids(self@[j].1));
                }
            }
        }
        self.add_with_id(queue, job, id)
    }

    /// Deletes the pending entry with id `task_id` from the first queue that
    /// holds one, on behalf of user `uid`: the superuser (uid 0) may delete
    /// any entry, another user only their own. `None` where no queue holds
    /// the id, `Some(Err(()))` where permission is refused.
    pub fn remove_job(&mut self, task_id: &str, uid: u32) -> (r: Option<Result<(), ()>>)
        requires
            group_wf(old(self)@),
        ensures
            group_wf(final(self)@),
            removal(old(self)@, final(self)@, task_id@, uid, r),
    {
        let id = task_id.to_owned();
        let mut i: usize = 0;
        while i < self.0.len()
            invariant
                0 <= i <= self.0.len(),
                self@ == old(self)@,
                id@ == task_id@,
                forall|j: int| 0 <= j < i ==> !holds_pending(#[trigger] self@[j].1, task_id@),
                group_wf(old(self)@),
            decreases self.0.len() - i,
        {
            let found = find_entry_in(&self.0[i].1, &id);
            match found {
                Some(k) => {
                    let ghost g = self@;
                    assert(queue_wf(g[i as int].1));
                    if self.0[i].1.jobs[k].1.uid == uid || uid == 0 {
                        let (qname, mut q) = self.0.remove(i);
                        assert(q@ == g[i as int].1);
                        let ghost before = q.jobs@;
                        q.jobs.remove(k);
                        proof {
                            assert(q@.pending =~= g[i as int].1.pending.remove(k as int));
                            lemma_wf_remove(g[i as int].1, k as int);
                        }
                        let ghost qv = q@;
                        self.0.insert(i, (qname, q));
                        assert(self@ =~= g.update(i as int, (g[i as int].0, qv)));
                        proof {
                            assert forall|j: int| 0 <= j < self@.len() implies queue_wf(#[trigger] self@[j].1) by {
                                if j != i {
                                    assert(self@[j] == g[j]);
                                }
                            }
                        }
                        return Some(Ok(()));
                    } else {
                        return Some(Err(()));
                    }
                },
                None => {},
            }
            i = i + 1;
        }
        None
    }

    /// The claim of a dispatch: of the entries of every queue that may run
    /// now, the one of highest priority at `now` that the provider accepts
    /// (with its memory nodes where `exclusive_mem`), the first of equals;
    /// its task id, job and queue name. The entry stays in its queue.
    pub fn try_take_job_at(&self, provider: &ResourcesProvider, exclusive_mem: bool, now: u64) -> (r: Option<(String, JobConfiguration, String)>)
        ensures
            ({
                let c = group_candidates(self@, now);
                match best_index(c, provider@, exclusive_mem) {
                    None => r is None,
                    Some(i) => r matches Some(t) && t.0@ == c[i].0 && t.1@ == c[i].1 && t.2@ == c[i].2,
                }
            }),
    {
        let ghost g = self@;
        let mut all: Vec<(String, JobConfiguration, String, i128)> = Vec::new();
        let mut qi: usize = 0;
        while qi < self.0.len()
            invariant
                0 <= qi <= self.0.len(),
                g == self@,
                choice_views(all@) == group_candidates(g.take(qi as int), now),
            decreases self.0.len() - qi,
        {
            assert(g.take(qi + 1).drop_last() == g.take(qi as int));
            assert(g.take(qi + 1).last() == g[qi as int]);
            let subs = self.0[qi].1.jobs_submitable(now);
            let ghost start = all@;
            let ghost tag = tagged(candidate_views(subs@), g[qi as int].0);
            let mut ci: usize = 0;
            while ci < subs.len()
                invariant
                    0 <= ci <= subs.len(),
                    g == self@,
                    0 <= qi < self.0.len(),
                    tag == tagged(candidate_views(subs@), g[qi as int].0),
                    choice_views(all@) == choice_views(start) + tag.take(ci as int),
                decreases subs.len() - ci,
            {
                let c = (subs[ci].0.clone(), subs[ci].1.clone(), self.0[qi].0.clone(), subs[ci].3);
                let ghost before = all@;
                all.push(c);
                assert(choice_views(all@) =~= choice_views(before).push((c.0@, c.1@, c.2@, c.3 as int)));
                assert(tag.take(ci + 1) =~= tag.take(ci as int).push(tag[ci as int]));
                ci = ci + 1;
            }
            assert(tag.take(ci as int) == tag);
            assert(candidate_views(subs@) == candidates(g[qi as int].1, g[qi as int].1.pending, now, true));
            qi = qi + 1;
        }
        assert(g.take(qi as int) == g);
        let ghost c = choice_views(all@);
        let mut best: Option<usize> = None;
        let mut i: usize = 0;
        while i < all.len()
            invariant
                0 <= i <= all.len(),
                c == choice_views(all@),
                match best {
                    None => best_index(c.take(i as int), provider@, exclusive_mem) is None,
                    Some(b) => best_index(c.take(i as int), provider@, exclusive_mem) == Some(b as int) && b < i,
                },
            decreases all.len() - i,
        {
            assert(c.take(i + 1).drop_last() == c.take(i as int));
            let ok = if exclusive_mem {
                provider.execlusive_mem_acceptable(&all[i].1.requirement)
            } else {
                provider.acceptable(&all[i].1.requirement)
            };
            let better = match best {
                None => true,
                Some(b) => all[i].3 > all[b].3,
            };
            if ok && better {
                best = Some(i);
            }
            i = i + 1;
        }
        assert(c.take(i as int) == c);
        match best {
            None => None,
            Some(b) => Some((all[b].0.clone(), all[b].1.clone(), all[b].2.clone())),
        }
    }

    /// `try_take_job_at` at the clock's current second.
    pub fn try_take_job(&self, provider: &ResourcesProvider, exlusive_mem: bool) -> (r: Option<(String, JobConfiguration, String)>)
        ensures
            exists|now: u64| match best_index(#[trigger] group_candidates(self@, now), provider@, exlusive_mem) {
                None => r is None,
                Some(i) => r matches Some(t) && t.0@ == group_candidates(self@, now)[i].0
                    && t.1@ == group_candidates(self@, now)[i].1 && t.2@ == group_candidates(self@, now)[i].2,
            },
    {
        let now = now_to_secs();
        self.try_take_job_at(provider, exlusive_mem, now)
    }

    /// The commit of a dispatch, after the vertex took the job claimed as
    /// `send_id` and named it `received_id`: in the first queue named
    /// `queue`, the claimed entry leaves the pending list, the job is
    /// recorded as running under `received_id`, and held entries are promoted
    /// at `now`. `None`, with nothing changed, where there is no such queue,
    /// where the entry is gone (deleted meanwhile), or where `received_id` is
    /// the id of another pending entry of that queue.
    pub fn truly_take_job_at(&mut self, queue: &str, send_id: &str, received_id: &str, job: &JobConfiguration, now: u64) -> (r: Option<()>)
        requires
            group_wf(old(self)@),
        ensures
            group_wf(final(self)@),
            r is None ==> final(self)@ == old(self)@,
            r is Some <==> commit_allowed(old(self)@, queue@, send_id@, received_id@),
            r is Some ==> commit_done(old(self)@, final(self)@, queue@, send_id@, received_id@, job@, now),
    {
        let name = queue.to_owned();
        let sent = send_id.to_owned();
        let received = received_id.to_owned();
        match find_key(&self.0, &name) {
            None => {
                proof {
                    assert forall|m: int| !first_named(self@, queue@, m) by {
                        if first_named(self@, queue@, m) {
                            assert(self.0@[m].0@ == name@);
                        }
                    }
                }
                None
            },
            Some(i) => {
                let ghost g = self@;
                proof {
                    assert(first_named(self@, queue@, i as int)) by {
                        assert forall|j: int| 0 <= j < i implies (#[trigger] self@[j]).0 != queue@ by {
                            assert(self.0@[j].0@ != name@);
                        }
                    }
                    assert forall|m: int| first_named(self@, queue@, m) implies m == i by {
                        if m < i {
                            assert(self.0@[m].0@ != name@);
                        } else if m > i {
                            assert(self@[i as int].0 != queue@);
                        }
                    }
                    assert(queue_wf(g[i as int].1));
                }
                let k = match find_entry_in(&self.0[i].1, &sent) {
                    Some(k) => k,
                    None => {
                        return None;
                    },
                };
                if received != sent {
                    match find_entry_in(&self.0[i].1, &received) {
                        Some(m) => {
                            return None;
                        },
                        None => {},
                    }
                }
                proof {
                    assert forall|m: int| 0 <= m < g[i as int].1.pending.len() && m != k implies (#[trigger] g[i as int].1.pending[m]).0 != received_id@ by {
                        if received_id@ == send_id@ {
                            assert(g[i as int].1.pending[k as int].0 == send_id@);
                            if m < k {
                                assert(g[i as int].1.pending[m].0 != g[i as int].1.pending[k as int].0);
                            } else {
                                assert(g[i as int].1.pending[k as int].0 != g[i as int].1.pending[m].0);
                            }
                        }
                    }
                    lemma_wf_committed(g[i as int].1, k as int, received_id@, job@, now);
                }
                let (qname, mut q) = self.0.remove(i);
                assert(q@ == g[i as int].1);
                q.jobs.remove(k);
                assert(q@.pending =~= g[i as int].1.pending.remove(k as int));
                q.add_to_running(received_id, job);
                q.refresh_jobs_at(now);
                let ghost qv = q@;
                self.0.insert(i, (qname, q));
                assert(self@ =~= g.update(i as int, (g[i as int].0, qv)));
                proof {
                    assert forall|j: int| 0 <= j < self@.len() implies queue_wf(#[trigger] self@[j].1) by {
                        if j != i {
                            assert(self@[j] == g[j]);
                        }
                    }
                    lemma_commit_moves_one(g[i as int].1, k as int, received_id@, job@, now);
                    assert forall|a: int| 0 <= a < qv.pending.len() implies holds_pending(g[i as int].1, (#[trigger] qv.pending[a]).0)
                        || forall|j: int| 0 <= j < g.len() && j != i ==> !holds_pending(#[trigger] g[j].1, qv.pending[a].0) by {
                        let a0 = if a < k { a } else { a + 1 };
                        assert(g[i as int].1.pending.remove(k as int)[a] == g[i as int].1.pending[a0]);
                    }
                    lemma_unique_after_update(g, i as int, (g[i as int].0, qv));
                }
                Some(())
            },
        }
    }

    /// `truly_take_job_at` at the clock's current second.
    pub fn truly_take_job(&mut self, queue: &str, send_id: &str, received_id: &str, job: &JobConfiguration) -> (r: Option<()>)
        requires
            group_wf(old(self)@),
        ensures
            group_wf(final(self)@),
            r is None ==> final(self)@ == old(self)@,
            r is Some <==> commit_allowed(old(self)@, queue@, send_id@, received_id@),
            r is Some ==> exists|now: u64| commit_done(old(self)@, final(self)@, queue@, send_id@, received_id@, job@, now),
    {
        let now = now_to_secs();
        self.truly_take_job_at(queue, send_id, received_id, job, now)
    }

    /// Reconciliation: every queue keeps, of its running jobs, those whose
    /// ids are in `running_ids`.
    pub fn refresh_running(&mut self, running_ids: &Vec<String>)
        requires
            group_wf(old(self)@),
        ensures
            group_wf(final(self)@),
            keep_running_all(old(self)@, final(self)@, running_ids@.map_values(|x: String| x@).to_set()),
            forall|i: int, j: int| 0 <= i < final(self)@.len() && 0 <= j < final(self)@[i].1.running.len() ==>
                running_ids@.map_values(|x: String| x@).to_set().contains(#[trigger] final(self)@[i].1.running[j].0),
    {
        let ghost ids = running_ids@.map_values(|x: String| x@).to_set();
        let mut i: usize = 0;
        while i < self.0.len()
            invariant
                0 <= i <= self.0.len(),
                self@.len() == old(self)@.len(),
                ids == running_ids@.map_values(|x: String| x@).to_set(),
                forall|j: int| 0 <= j < i ==> #[trigger] self@[j] == (old(self)@[j].0, QueueSpec {
                    running: keep_ids(old(self)@[j].1.running, ids),
                    ..old(self)@[j].1
                }),
                forall|j: int| i <= j < self@.len() ==> #[trigger] self@[j] == old(self)@[j],
                group_wf(old(self)@),
            decreases self.0.len() - i,
        {
            let ghost g = self@;
            let (qname, mut q) = self.0.remove(i);
            assert(q@ == g[i as int].1);
            q.refresh_running(running_ids);
            let ghost qv = q@;
            self.0.insert(i, (qname, q));
            assert(self@ =~= g.update(i as int, (g[i as int].0, qv)));
            i = i + 1;
        }
        proof {
            assert forall|j: int| 0 <= j < self@.len() implies queue_wf(#[trigger] self@[j].1) by {
                let q = old(self)@[j].1;
                assert(queue_wf(q));
                lemma_keep_ids(q.running, ids);
                let r = self@[j].1;
                assert forall|a: int, b: int| 0 <= a < r.pending.len() && 0 <= b < r.running.len() implies (#[trigger] r.pending[a]).0 != (#[trigger] r.running[b]).0 by {
                    let e = r.running[b];
                    assert(q.running.contains(e));
                    let m = choose|m: int| 0 <= m < q.running.len() && q.running[m] == e;
                    assert(q.pending[a].0 != q.running[m].0);
                }
            }
            assert forall|a: int, b: int| 0 <= a < self@.len() && 0 <= b < self@[a].1.running.len() implies
                ids.contains(#[trigger] self@[a].1.running[b].0) by {
                lemma_keep_ids(old(self)@[a].1.running, ids);
            }
        }
    }
}

/// What a saved snapshot gives the queue named `name` with running jobs
/// `running` and pending entries `pending`: the entries of the first snapshot
/// of that name, as `restored` takes them, or the pending entries as they are
/// where the snapshot has no queue of that name.
pub open spec fn restored_pending(saved: Seq<(Seq<char>, Seq<EntrySpec>)>, g: GroupSpec, i: int) -> Seq<EntrySpec> {
    let name = g[i].0;
    if exists|j: int| 0 <= j < saved.len() && (#[trigger] saved[j]).0 == name {
        let j = choose|j: int|
            0 <= j < saved.len() && (#[trigger] saved[j]).0 == name && forall|m: int|
                0 <= m < j ==> (#[trigger] saved[m]).0 != name;
        restored(free_of_others(saved[j].1, g, i), g[i].1.running)
    } else {
        g[i].1.pending
    }
}

/// Some queue of the group other than queue `i` holds `id` pending.
pub open spec fn held_elsewhere(g: GroupSpec, i: int, id: Seq<char>) -> bool {
    exists|j: int| 0 <= j < g.len() && j != i && holds_pending(#[trigger] g[j].1, id)
}

/// The entries of `s`, in order, whose ids no queue other than `i` holds.
pub open spec fn free_of_others(s: Seq<EntrySpec>, g: GroupSpec, i: int) -> Seq<EntrySpec>
    decreases s.len(),
{
    if s.len() == 0 {
        s
    } else {
        let r = free_of_others(s.drop_last(), g, i);
        if held_elsewhere(g, i, s.last().0) {
            r
        } else {
            r.push(s.last())
        }
    }
}

proof fn lemma_free_of_others(s: Seq<EntrySpec>, g: GroupSpec, i: int)
    ensures
        forall|k: int|
            0 <= k < free_of_others(s, g, i).len() ==> !held_elsewhere(g, i, (#[trigger] free_of_others(s, g, i)[k]).0),
    decreases s.len(),
{
    if s.len() > 0 {
        lemma_free_of_others(s.drop_last(), g, i);
        let r = free_of_others(s.drop_last(), g, i);
        assert forall|k: int| 0 <= k < free_of_others(s, g, i).len() implies !held_elsewhere(g, i, (#[trigger] free_of_others(s, g, i)[k]).0) by {
            if k < r.len() {
                assert(free_of_others(s, g, i)[k] == r[k]);
            }
        }
    }
}

/// The group as it stands while queue `i` is restored: the queues before it
/// as in `new`, the others as in `old`.
pub open spec fn midway(new: GroupSpec, old: GroupSpec, i: int) -> GroupSpec {
    Seq::new(old.len(), |j: int| if j < i { new[j] } else { old[j] })
}

pub open spec fn snapshot_views(v: Seq<(String, Vec<(String, JobConfiguration, Option<u64>)>)>) -> Seq<(Seq<char>, Seq<EntrySpec>)> {
    v.map_values(|e: (String, Vec<(String, JobConfiguration, Option<u64>)>)| (e.0@, entry_views(e.1@)))
}

impl QueueGroup {
    /// The pending entries of every queue, by queue name, in order.
    pub fn pending_snapshot(&self) -> (r: Vec<(String, Vec<(String, JobConfiguration, Option<u64>)>)>)
        ensures
            r@.len() == self@.len(),
            forall|i: int| 0 <= i < self@.len() ==> (#[trigger] snapshot_views(r@)[i]) == (self@[i].0, self@[i].1.pending),
    {
        let mut out: Vec<(String, Vec<(String, JobConfiguration, Option<u64>)>)> = Vec::new();
        let mut i: usize = 0;
        while i < self.0.len()
            invariant
                0 <= i <= self.0.len(),
                out@.len() == i,
                forall|j: int| 0 <= j < i ==> (#[trigger] snapshot_views(out@)[j]) == (self@[j].0, self@[j].1.pending),
            decreases self.0.len() - i,
        {
            let q = &self.0[i].1;
            let mut entries: Vec<(String, JobConfiguration, Option<u64>)> = Vec::new();
            let mut k: usize = 0;
            while k < q.jobs.len()
                invariant
                    0 <= k <= q.jobs.len(),
                    entries@.len() == k,
                    forall|m: int| 0 <= m < k ==> (#[trigger] entries@[m]).0@ == q.jobs@[m].0@ && entries@[m].1@ == q.jobs@[m].1@ && entries@[m].2 == q.jobs@[m].2,
                decreases q.jobs.len() - k,
            {
                entries.push((q.jobs[k].0.clone(), q.jobs[k].1.clone(), q.jobs[k].2));
                k = k + 1;
            }
            assert(entry_views(entries@) =~= entry_views(q.jobs@));
            let ghost before = out@;
            out.push((self.0[i].0.clone(), entries));
            proof {
                assert(snapshot_views(out@)[i as int] == (self.0@[i as int].0@, entry_views(entries@)));
                assert forall|j: int| 0 <= j < i + 1 implies (#[trigger] snapshot_views(out@)[j]) == (self@[j].0, self@[j].1.pending) by {
                    if j < i {
                        assert(out@[j] == before[j]);
                        assert(snapshot_views(out@)[j] == snapshot_views(before)[j]);
                    }
                }
            }
            i = i + 1;
        }
        out
    }

    /// Takes back saved pending entries: each queue whose name the snapshot
    /// holds gets the entries saved under that name (the first such), less
    /// those whose ids another queue holds pending at that moment, as
    /// `Queue::restore_pending` takes them; queues are restored in order, and
    /// entries saved for queues that no longer exist are dropped.
    pub fn restore_pending(&mut self, saved: &Vec<(String, Vec<(String, JobConfiguration, Option<u64>)>)>)
        requires
            group_wf(old(self)@),
        ensures
            group_wf(final(self)@),
            final(self)@.len() == old(self)@.len(),
            forall|i: int| 0 <= i < old(self)@.len() ==> #[trigger] final(self)@[i] == (old(self)@[i].0, QueueSpec {
                pending: restored_pending(snapshot_views(saved@), midway(final(self)@, old(self)@, i), i),
                ..old(self)@[i].1
            }),
    {
        let ghost sv = snapshot_views(saved@);
        let ghost g0 = self@;
        let mut i: usize = 0;
        while i < self.0.len()
            invariant
                0 <= i <= self.0.len(),
                self@.len() == g0.len(),
                g0 == old(self)@,
                sv == snapshot_views(saved@),
                forall|j: int| 0 <= j < i ==> #[trigger] self@[j] == (g0[j].0, QueueSpec {
                    pending: restored_pending(sv, midway(self@, g0, j), j),
                    ..g0[j].1
                }),
                forall|j: int| i <= j < self@.len() ==> #[trigger] self@[j] == g0[j],
                group_wf(self@),
            decreases self.0.len() - i,
        {
            let ghost g = self@;
            assert(midway(g, g0, i as int) =~= g);
            match find_key(saved, &self.0[i].0) {
                Some(j) => {
                    proof {
                        let name = g[i as int].0;
                        assert(sv[j as int].0 == name);
                        let c = choose|c: int|
                            0 <= c < sv.len() && (#[trigger] sv[c]).0 == name && forall|m: int|
                                0 <= m < c ==> (#[trigger] sv[m]).0 != name;
                        if c < j {
                            assert(saved@[c].0@ != name);
                        } else if c > j {
                            assert(sv[j as int].0 != name);
                        }
                        assert(c == j);
                    }
                    let ghost sj = sv[j as int].1;
                    let entries = &saved[j].1;
                    assert(entry_views(entries@) == sj);
                    let mut kept: Vec<(String, JobConfiguration, Option<u64>)> = Vec::new();
                    let mut n: usize = 0;
                    while n < entries.len()
                        invariant
                            0 <= n <= entries.len(),
                            g == self@,
                            0 <= i < self@.len(),
                            sj == entry_views(entries@),
                            entry_views(kept@) == free_of_others(sj.take(n as int), g, i as int),
                        decreases entries.len() - n,
                    {
                        assert(sj.take(n + 1).drop_last() == sj.take(n as int));
                        assert(sj.take(n + 1).last() == sj[n as int]);
                        if !self.held_elsewhere(i, &entries[n].0) {
                            let e = (entries[n].0.clone(), entries[n].1.clone(), entries[n].2);
                            let ghost before = kept@;
                            kept.push(e);
                            assert(entry_views(kept@) =~= entry_views(before).push(sj[n as int]));
                        }
                        n = n + 1;
                    }
                    assert(sj.take(n as int) == sj);
                    let (qname, mut q) = self.0.remove(i);
                    assert(q@ == g[i as int].1);
                    q.restore_pending(&kept);
                    let ghost qv = q@;
                    self.0.insert(i, (qname, q));
                    assert(self@ =~= g.update(i as int, (g[i as int].0, qv)));
                    proof {
                        let f = free_of_others(sj, g, i as int);
                        lemma_free_of_others(sj, g, i as int);
                        crate::queue::lemma_restored_from(f, g[i as int].1.running);
                        assert forall|a: int| 0 <= a < qv.pending.len() implies holds_pending(g[i as int].1, (#[trigger] qv.pending[a]).0)
                            || forall|x: int| 0 <= x < g.len() && x != i ==> !holds_pending(#[trigger] g[x].1, qv.pending[a].0) by {
                            assert(f.contains(qv.pending[a]));
                            let m = choose|m: int| 0 <= m < f.len() && f[m] == qv.pending[a];
                            assert(!held_elsewhere(g, i as int, f[m].0));
                        }
                        lemma_unique_after_update(g, i as int, (g[i as int].0, qv));
                        assert(restored_pending(sv, g, i as int) == qv.pending);
                    }
                },
                None => {
                    proof {
                        assert forall|c: int| 0 <= c < sv.len() implies (#[trigger] sv[c]).0 != g[i as int].0 by {
                            assert(saved@[c].0@ != self.0@[i as int].0@);
                        }
                    }
                },
            }
            proof {
                assert forall|j: int| 0 <= j < i + 1 implies #[trigger] self@[j] == (g0[j].0, QueueSpec {
                    pending: restored_pending(sv, midway(self@, g0, j), j),
                    ..g0[j].1
                }) by {
                    assert(midway(self@, g0, j) =~= midway(g, g0, j));
                }
            }
            i = i + 1;
        }
    }

    /// Whether a queue other than queue `i` holds `id` pending.
    fn held_elsewhere(&self, i: usize, id: &String) -> (r: bool)
        ensures
            r == held_elsewhere(self@, i as int, id@),
    {
        let mut j: usize = 0;
        while j < self.0.len()
            invariant
                0 <= j <= self.0.len(),
                forall|k: int| 0 <= k < j && k != i ==> !holds_pending(#[trigger] self@[k].1, id@),
            decreases self.0.len() - j,
        {
            if j != i && find_entry_in(&self.0[j].1, id).is_some() {
                assert(holds_pending(self@[j as int].1, id@));
                return true;
            }
            j = j + 1;
        }
        false
    }
}

/// The index of the first pending entry of `q` with id `id`.
fn find_entry_in(q: &Queue, id: &String) -> (r: Option<usize>)
    ensures
        r matches Some(k) ==> k < q@.pending.len() && q@.pending[k as int].0 == id@,
        r is Some <==> holds_pending(q@, id@),
{
    let mut k: usize = 0;
    while k < q.jobs.len()
        invariant
            0 <= k <= q.jobs.len(),
            forall|j: int| 0 <= j < k ==> (#[trigger] q@.pending[j]).0 != id@,
        decreases q.jobs.len() - k,
    {
        if q.jobs[k].0 == *id {
            assert(q@.pending[k as int].0 == id@);
            return Some(k);
        }
        k = k + 1;
    }
    None
}

/// Accepting is monotonic in the provider: what a provider accepts, a
/// provider that offers at least as much on every axis accepts too.
pub proof fn lemma_fits_monotone(lesser: ResourcesProvider, greater: ResourcesProvider, r: RequirementSpec, exclusive: bool)
    requires
        crate::resources::provider_le(lesser@, greater@),
        fits(lesser@, r, exclusive),
    ensures
        fits(greater@, r, exclusive),
{
    vstd::seq_lib::seq_to_set_is_finite(greater.cpus@);
    vstd::seq_lib::seq_to_set_is_finite(greater.mems@);
    vstd::set_lib::lemma_len_subset(lesser@.cpus, greater@.cpus);
    vstd::set_lib::lemma_len_subset(lesser@.mems, greater@.mems);
    assert(accepts(lesser@, r));
    assert(properties_le(r.properties, lesser@.properties));
    assert(properties_le(lesser@.properties, greater@.properties));
    lemma_countables_le_trans(r.countables, lesser@.countables, greater@.countables);
    assert(properties_le(r.properties, greater@.properties)) by {
        assert forall|k: Seq<char>| r.properties.contains_key(k) implies (greater@.properties.contains_key(k)
            && greater@.properties[k] == r.properties[k]) by {
            assert(lesser@.properties.contains_key(k));
            assert(lesser@.properties[k] == r.properties[k]);
        }
    }
    match r.cpus {
        crate::resources::NodesSpec::Select(s) => {
            assert(s.subset_of(greater@.cpus));
        },
        _ => {},
    }
    match r.mems {
        crate::resources::NodesSpec::Select(s) => {
            if exclusive {
                assert(s.subset_of(greater@.mems));
            }
        },
        _ => {},
    }
}

/// The claim is monotonic in the provider: where a provider `lesser` gets an
/// entry, a provider `greater` that offers at least as much on every axis gets an
/// entry too, of priority no lower.
pub proof fn lemma_try_take_monotone(g: GroupSpec, lesser: ResourcesProvider, greater: ResourcesProvider, exclusive: bool, now: u64)
    requires
        crate::resources::provider_le(lesser@, greater@),
        best_index(group_candidates(g, now), lesser@, exclusive) is Some,
    ensures
        ({
            let c = group_candidates(g, now);
            best_index(c, greater@, exclusive) is Some && c[best_index(c, greater@, exclusive)->0].3 >= c[best_index(c, lesser@, exclusive)->0].3
        }),
{
    let c = group_candidates(g, now);
    lemma_best_index(c, lesser@, exclusive);
    lemma_best_index(c, greater@, exclusive);
    let i = best_index(c, lesser@, exclusive)->0;
    lemma_fits_monotone(lesser, greater, c[i].1.requirement, exclusive);
}

} // verus!
