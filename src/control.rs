//! The decisions of the dispatcher's control loop for one vertex in one
//! tick: ask for free resources, dispatch claimed jobs one by one, then
//! reconcile with the jobs the vertex still runs. The caller performs each
//! action (a remote call) and hands back what came of it.
use vstd::prelude::*;

use crate::group::{
    best_index, commit_allowed, commit_done, group_candidates, group_wf, keep_running_all,
    QueueGroup,
};
use crate::jobs::JobConfiguration;
use crate::resources::ResourcesProvider;

verus! {

/// Where a vertex's turn stands.
#[derive(Clone, Copy)]
pub enum TickPhase {
    AwaitFree,
    AwaitSubmit,
    AwaitJobs,
    Done,
}

/// What the caller learnt from the vertex.
pub enum TickEvent {
    /// The vertex's free resources.
    Free(ResourcesProvider),
    FreeFailed,
    /// The vertex took the job and named it so.
    Submitted(String),
    SubmitFailed,
    /// The ids of the jobs the vertex reports.
    Jobs(Vec<String>),
    JobsFailed,
}

/// What the caller is to do next.
pub enum TickAction {
    RequestFree,
    /// Send this job (task id, job, queue name) to the vertex.
    Submit(String, JobConfiguration, String),
    RequestJobs,
    Finish,
}

/// The state of one vertex's turn.
pub struct VertexTick {
    pub phase: TickPhase,
    /// The vertex was not seen for too long: only its liveness is probed.
    pub lost: bool,
    /// The last offer of free resources.
    pub provider: Option<ResourcesProvider>,
    /// The job sent and not yet answered: task id, job, queue name.
    pub claim: Option<(String, JobConfiguration, String)>,
    /// Whether the last commit went through.
    pub committed: Option<bool>,
}

/// A turn that waits for a submission knows what it sent and to whom.
pub open spec fn tick_wf(t: VertexTick) -> bool {
    t.phase is AwaitSubmit ==> t.provider is Some && t.claim is Some
}

/// `a` is the action that dispatches the best entry of `g` for provider `p`
/// at `now`, or asks for the vertex's jobs where there is none.
pub open spec fn next_claim(g: crate::group::GroupSpec, p: ResourcesProvider, now: u64, a: TickAction, t: VertexTick) -> bool {
    let c = group_candidates(g, now);
    match best_index(c, p@, false) {
        None => a is RequestJobs && t.phase is AwaitJobs,
        Some(i) => {
            &&& t.phase is AwaitSubmit
            &&& (a matches TickAction::Submit(id, job, q) && id@ == c[i].0 && job@ == c[i].1 && q@
                == c[i].2)
            &&& (t.claim matches Some(cl) && cl.0@ == c[i].0 && cl.1@ == c[i].1 && cl.2@ == c[i].2)
        },
    }
}

impl VertexTick {
    /// Starts a vertex's turn: ask for its free resources.
    pub fn begin(lost: bool) -> (r: (VertexTick, TickAction))
        ensures
            r.0.phase is AwaitFree,
            r.0.lost == lost,
            r.1 is RequestFree,
            tick_wf(r.0),
    {
        (VertexTick { phase: TickPhase::AwaitFree, lost, provider: None, claim: None, committed: None }, TickAction::RequestFree)
    }

    fn claim_next(&mut self, group: &QueueGroup, provider: ResourcesProvider, now: u64) -> (r: TickAction)
        ensures
            next_claim(group@, provider, now, r, *final(self)),
            final(self).provider == Some(provider),
            final(self).lost == old(self).lost,
            final(self).committed == old(self).committed,
            tick_wf(*final(self)),
    {
        let choice = group.try_take_job_at(&provider, false, now);
        self.provider = Some(provider);
        match choice {
            Some((id, job, queue)) => {
                self.claim = Some((id.clone(), job.clone(), queue.clone()));
                self.phase = TickPhase::AwaitSubmit;
                TickAction::Submit(id, job, queue)
            },
            None => {
                self.phase = TickPhase::AwaitJobs;
                TickAction::RequestJobs
            },
        }
    }

    /// Takes what came of the last action and decides the next.
    pub fn step(&mut self, group: &mut QueueGroup, event: TickEvent, now: u64) -> (r: TickAction)
        requires
            group_wf(old(group)@),
            tick_wf(*old(self)),
        ensures
            group_wf(final(group)@),
            tick_wf(*final(self)),
            final(self).lost == old(self).lost,
            match (old(self).phase, event) {
                (TickPhase::AwaitFree, TickEvent::Free(p)) => final(group)@ == old(group)@ && if old(self).lost {
                    r is Finish && final(self).phase is Done
                } else {
                    next_claim(old(group)@, p, now, r, *final(self))
                },
                (TickPhase::AwaitFree, TickEvent::FreeFailed) => final(group)@ == old(group)@ && if old(self).lost {
                    r is Finish && final(self).phase is Done
                } else {
                    r is RequestJobs && final(self).phase is AwaitJobs
                },
                (TickPhase::AwaitSubmit, TickEvent::Submitted(received)) => {
                    let cl = old(self).claim->0;
                    let ok = commit_allowed(old(group)@, cl.2@, cl.0@, received@);
                    &&& final(self).committed == Some(ok)
                    &&& ok ==> commit_done(old(group)@, final(group)@, cl.2@, cl.0@, received@, cl.1@, now)
                        && next_claim(final(group)@, old(self).provider->0, now, r, *final(self))
                    &&& !ok ==> final(group)@ == old(group)@ && r is RequestJobs && final(self).phase is AwaitJobs
                },
                (TickPhase::AwaitSubmit, TickEvent::SubmitFailed) => final(group)@ == old(group)@
                    && r is RequestJobs && final(self).phase is AwaitJobs,
                (TickPhase::AwaitJobs, TickEvent::Jobs(ids)) => keep_running_all(old(group)@, final(group)@, ids@.map_values(|x: String| x@).to_set())
                    && r is Finish && final(self).phase is Done,
                _ => final(group)@ == old(group)@ && r is Finish && final(self).phase is Done,
            },
    {
        match (self.phase, event) {
            (TickPhase::AwaitFree, TickEvent::Free(p)) => {
                if self.lost {
                    self.phase = TickPhase::Done;
                    TickAction::Finish
                } else {
                    self.claim_next(group, p, now)
                }
            },
            (TickPhase::AwaitFree, TickEvent::FreeFailed) => {
                if self.lost {
                    self.phase = TickPhase::Done;
                    TickAction::Finish
                } else {
                    self.phase = TickPhase::AwaitJobs;
                    TickAction::RequestJobs
                }
            },
            (TickPhase::AwaitSubmit, TickEvent::Submitted(received)) => {
                let (id, job, queue) = match &self.claim {
                    Some(c) => (c.0.clone(), c.1.clone(), c.2.clone()),
                    None => unreached(),
                };
                let provider = match &self.provider {
                    Some(p) => p.clone(),
                    None => unreached(),
                };
                let done = group.truly_take_job_at(queue.as_str(), id.as_str(), received.as_str(), &job, now);
                match done {
                    Some(()) => {
                        self.committed = Some(true);
                        self.claim_next(group, provider, now)
                    },
                    None => {
                        self.committed = Some(false);
                        self.phase = TickPhase::AwaitJobs;
                        TickAction::RequestJobs
                    },
                }
            },
            (TickPhase::AwaitSubmit, TickEvent::SubmitFailed) => {
                self.phase = TickPhase::AwaitJobs;
                TickAction::RequestJobs
            },
            (TickPhase::AwaitJobs, TickEvent::Jobs(ids)) => {
                group.refresh_running(&ids);
                self.phase = TickPhase::Done;
                TickAction::Finish
            },
            _ => {
                self.phase = TickPhase::Done;
                TickAction::Finish
            },
        }
    }
}

} // verus!
