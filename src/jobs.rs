//! The job model: a job's configuration and the phases of its script.
use vstd::prelude::*;

use crate::resources::{NodesRequirement, Properties, RequirementSpec, ResourcesRequirement};

verus! {

/// The texts of a list of strings.
pub open spec fn texts(v: Seq<String>) -> Seq<Seq<char>> {
    v.map_values(|s: String| s@)
}

/// A copy of a list of strings.
pub fn clone_strings(v: &Vec<String>) -> (r: Vec<String>)
    ensures
        texts(r@) == texts(v@),
{
    let mut out: Vec<String> = Vec::new();
    let mut i: usize = 0;
    while i < v.len()
        invariant
            0 <= i <= v.len(),
            out@.len() == i,
            forall|j: int| 0 <= j < i ==> (#[trigger] out@[j])@ == v@[j]@,
        decreases v.len() - i,
    {
        out.push(v[i].clone());
        i = i + 1;
    }
    assert(texts(out@) =~= texts(v@));
    out
}

/// One step of a job's script.
pub enum ExecutePhase {
    /// A shell script, run with `bash -c`.
    Sh(String),
    /// A program and its arguments.
    Run(Vec<String>),
    /// Change the working directory.
    WorkDir(String),
    /// Set environment variables.
    Env(Properties),
}

/// The meaning of a phase.
pub enum PhaseSpec {
    Sh(Seq<char>),
    Run(Seq<Seq<char>>),
    WorkDir(Seq<char>),
    Env(Map<Seq<char>, Seq<char>>),
}

impl View for ExecutePhase {
    type V = PhaseSpec;

    open spec fn view(&self) -> PhaseSpec {
        match self {
            ExecutePhase::Sh(s) => PhaseSpec::Sh(s@),
            ExecutePhase::Run(v) => PhaseSpec::Run(texts(v@)),
            ExecutePhase::WorkDir(s) => PhaseSpec::WorkDir(s@),
            ExecutePhase::Env(p) => PhaseSpec::Env(p@),
        }
    }
}

impl Clone for ExecutePhase {
    fn clone(&self) -> (r: Self)
        ensures
            r@ == self@,
    {
        match self {
            ExecutePhase::Sh(s) => ExecutePhase::Sh(s.clone()),
            ExecutePhase::Run(v) => ExecutePhase::Run(clone_strings(v)),
            ExecutePhase::WorkDir(s) => ExecutePhase::WorkDir(s.clone()),
            ExecutePhase::Env(p) => ExecutePhase::Env(p.clone()),
        }
    }
}

/// The meanings of a list of phases.
pub open spec fn phase_views(v: Seq<ExecutePhase>) -> Seq<PhaseSpec> {
    v.map_values(|p: ExecutePhase| p@)
}

/// A copy of a list of phases.
pub fn clone_phases(v: &Vec<ExecutePhase>) -> (r: Vec<ExecutePhase>)
    ensures
        phase_views(r@) == phase_views(v@),
{
    let mut out: Vec<ExecutePhase> = Vec::new();
    let mut i: usize = 0;
    while i < v.len()
        invariant
            0 <= i <= v.len(),
            out@.len() == i,
            forall|j: int| 0 <= j < i ==> (#[trigger] out@[j])@ == v@[j]@,
        decreases v.len() - i,
    {
        out.push(v[i].clone());
        i = i + 1;
    }
    assert(phase_views(out@) =~= phase_views(v@));
    out
}

/// A job as submitted: who runs it, what it needs, and what it does.
pub struct JobConfiguration {
    pub name: String,
    pub uid: u32,
    pub gid: u32,
    /// Seconds the job may run; 0 for no limit.
    pub time_limit: u64,
    pub stdout_file: String,
    pub stderr_file: String,
    pub requirement: ResourcesRequirement,
    pub phases: Vec<ExecutePhase>,
}

/// The meaning of a job configuration.
pub struct JobSpec {
    pub name: Seq<char>,
    pub uid: u32,
    pub gid: u32,
    pub time_limit: u64,
    pub stdout_file: Seq<char>,
    pub stderr_file: Seq<char>,
    pub requirement: RequirementSpec,
    pub phases: Seq<PhaseSpec>,
}

impl View for JobConfiguration {
    type V = JobSpec;

    open spec fn view(&self) -> JobSpec {
        JobSpec {
            name: self.name@,
            uid: self.uid,
            gid: self.gid,
            time_limit: self.time_limit,
            stdout_file: self.stdout_file@,
            stderr_file: self.stderr_file@,
            requirement: self.requirement@,
            phases: phase_views(self.phases@),
        }
    }
}

impl Clone for JobConfiguration {
    fn clone(&self) -> (r: Self)
        ensures
            r@ == self@,
    {
        JobConfiguration {
            name: self.name.clone(),
            uid: self.uid,
            gid: self.gid,
            time_limit: self.time_limit,
            stdout_file: self.stdout_file.clone(),
            stderr_file: self.stderr_file.clone(),
            requirement: self.requirement.clone(),
            phases: clone_phases(&self.phases),
        }
    }
}

/// What the executor of a job does next.
pub enum PhaseStep {
    /// Run the phase at this index.
    Run(usize),
    /// Every phase succeeded.
    Succeeded,
    /// A phase failed; the rest are not run.
    Failed,
}

impl JobConfiguration {
    /// The executor's next step, the phases before `next` having run and
    /// `last_ok` telling whether the last of them succeeded (`true` before
    /// the first): the phase at `next`, or the end of the run.
    pub fn next_phase(&self, next: usize, last_ok: bool) -> (r: PhaseStep)
        ensures
            !last_ok ==> r is Failed,
            last_ok && next < self.phases@.len() ==> r == PhaseStep::Run(next),
            last_ok && next >= self.phases@.len() ==> r is Succeeded,
    {
        if !last_ok {
            PhaseStep::Failed
        } else if next < self.phases.len() {
            PhaseStep::Run(next)
        } else {
            PhaseStep::Succeeded
        }
    }

    /// The same job with its CPU and memory node requirements replaced.
    pub fn set_cpuset(self, cpus: NodesRequirement, mems: NodesRequirement) -> (r: Self)
        ensures
            r@ == (JobSpec {
                requirement: RequirementSpec { cpus: cpus@, mems: mems@, ..self@.requirement },
                ..self@
            }),
    {
        let JobConfiguration { name, uid, gid, time_limit, stdout_file, stderr_file, requirement, phases } =
            self;
        let ResourcesRequirement { countables, properties, .. } = requirement;
        JobConfiguration {
            name,
            uid,
            gid,
            time_limit,
            stdout_file,
            stderr_file,
            requirement: ResourcesRequirement { cpus, mems, countables, properties },
            phases,
        }
    }
}

} // verus!
