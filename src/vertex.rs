//! The vertex side: the state of the jobs a vertex runs, its free
//! resources, and the admission of a submitted job with the choice of its
//! nodes.
use vstd::prelude::*;

use crate::jobs::{JobConfiguration, JobSpec};
use crate::nodes::{difference, first_nodes};
use crate::nodes::strictly_increasing;
use crate::resources::{
    joined_decimals, accepts_exclusive, count_of, entries_view, find_key, lemma_entries_absent,
    lemma_entries_dom, named_nodes, provider_le, Countables, NodesRequirement, NodesSpec,
    ProviderSpec, RequirementSpec, ResourcesProvider,
};

verus! {

/// What became of a job on a vertex.
pub enum VertexJobStatus {
    /// Running since the second given.
    Running(JobConfiguration, u64),
    /// Ended with a failure.
    Error { configuration: JobConfiguration, status_code: i32, error_message: String, exit_at: u64 },
    /// Ended successfully at the second given.
    Finished(JobConfiguration, u64),
}

/// The meaning of a job status.
pub enum StatusSpec {
    Running(JobSpec, u64),
    Error { configuration: JobSpec, status_code: i32, error_message: Seq<char>, exit_at: u64 },
    Finished(JobSpec, u64),
}

impl View for VertexJobStatus {
    type V = StatusSpec;

    open spec fn view(&self) -> StatusSpec {
        match self {
            VertexJobStatus::Running(j, t) => StatusSpec::Running(j@, *t),
            VertexJobStatus::Error { configuration, status_code, error_message, exit_at } =>
                StatusSpec::Error {
                configuration: configuration@,
                status_code: *status_code,
                error_message: error_message@,
                exit_at: *exit_at,
            },
            VertexJobStatus::Finished(j, t) => StatusSpec::Finished(j@, *t),
        }
    }
}

impl Clone for VertexJobStatus {
    fn clone(&self) -> (r: Self)
        ensures
            r@ == self@,
    {
        match self {
            VertexJobStatus::Running(j, t) => VertexJobStatus::Running(j.clone(), *t),
            VertexJobStatus::Error { configuration, status_code, error_message, exit_at } =>
                VertexJobStatus::Error {
                configuration: configuration.clone(),
                status_code: *status_code,
                error_message: error_message.clone(),
                exit_at: *exit_at,
            },
            VertexJobStatus::Finished(j, t) => VertexJobStatus::Finished(j.clone(), *t),
        }
    }
}

impl VertexJobStatus {
    /// Whether the job still runs.
    pub fn is_running(&self) -> (r: bool)
        ensures
            r == (self@ is Running),
    {
        match self {
            VertexJobStatus::Running(_, _) => true,
            _ => false,
        }
    }

    /// The status of a job whose supervisor ended at `now`: `Finished` where
    /// it succeeded, else `Error` with the exit code and message.
    pub fn ended(configuration: JobConfiguration, success: bool, status_code: i32, error_message: String, now: u64) -> (r: Self)
        ensures
            success ==> r@ == StatusSpec::Finished(configuration@, now),
            !success ==> r@ == (StatusSpec::Error {
                configuration: configuration@,
                status_code,
                error_message: error_message@,
                exit_at: now,
            }),
    {
        if success {
            VertexJobStatus::Finished(configuration, now)
        } else {
            VertexJobStatus::Error { configuration, status_code, error_message, exit_at: now }
        }
    }
}

// ---------------------------------------------------------------------------
// Free resources
// ---------------------------------------------------------------------------
/// `a - b`, or 0 where `b` is larger.
pub open spec fn monus(a: nat, b: nat) -> nat {
    if a >= b {
        (a - b) as nat
    } else {
        0
    }
}

/// The countables `a` less the countables `b`, each amount floored at 0; a
/// key of either is a key of the result.
pub open spec fn countables_minus(a: Map<Seq<char>, usize>, b: Map<Seq<char>, usize>) -> Map<
    Seq<char>,
    usize,
> {
    Map::new(
        |k: Seq<char>| a.contains_key(k) || b.contains_key(k),
        |k: Seq<char>| monus(count_of(a, k), count_of(b, k)) as usize,
    )
}

/// A provider less what a requirement takes: its named CPUs and memory
/// nodes and its countables; properties are not taken.
pub open spec fn subtract(p: ProviderSpec, r: RequirementSpec) -> ProviderSpec {
    ProviderSpec {
        cpus: p.cpus.difference(named_nodes(r.cpus)),
        mems: p.mems.difference(named_nodes(r.mems)),
        countables: countables_minus(p.countables, r.countables),
        properties: p.properties,
    }
}

/// What a provider has left with the running jobs of `s` subtracted.
pub open spec fn free_after(p: ProviderSpec, s: Seq<StatusSpec>) -> ProviderSpec
    decreases s.len(),
{
    if s.len() == 0 {
        p
    } else {
        let f = free_after(p, s.drop_last());
        match s.last() {
            StatusSpec::Running(job, _) => subtract(f, job.requirement),
            _ => f,
        }
    }
}

pub open spec fn status_views(v: Seq<VertexJobStatus>) -> Seq<StatusSpec> {
    v.map_values(|s: VertexJobStatus| s@)
}

proof fn lemma_count_minus(a: Map<Seq<char>, usize>, b: Map<Seq<char>, usize>, k: Seq<char>)
    ensures
        count_of(countables_minus(a, b), k) == monus(count_of(a, k), count_of(b, k)),
{
}

/// Subtracting a requirement leaves no more than there was.
pub proof fn lemma_subtract_le(p: ProviderSpec, r: RequirementSpec)
    ensures
        provider_le(subtract(p, r), p),
{
    let m = countables_minus(p.countables, r.countables);
    assert forall|k: Seq<char>| #[trigger] m.contains_key(k) implies m[k] <= count_of(p.countables, k) by {
        lemma_count_minus(p.countables, r.countables, k);
    }
    assert forall|k: Seq<char>| #[trigger] p.properties.contains_key(k) implies (p.properties.contains_key(k)
        && p.properties[k] == p.properties[k]) by {}
}

/// Subtracting a requirement keeps the order of providers.
pub proof fn lemma_subtract_monotone(lesser: ProviderSpec, greater: ProviderSpec, r: RequirementSpec)
    requires
        provider_le(lesser, greater),
    ensures
        provider_le(subtract(lesser, r), subtract(greater, r)),
{
    let m1 = countables_minus(lesser.countables, r.countables);
    let m2 = countables_minus(greater.countables, r.countables);
    assert forall|k: Seq<char>| #[trigger] m1.contains_key(k) implies m1[k] <= count_of(m2, k) by {
        lemma_count_minus(lesser.countables, r.countables, k);
        lemma_count_minus(greater.countables, r.countables, k);
        if lesser.countables.contains_key(k) {
            assert(lesser.countables[k] <= count_of(greater.countables, k));
        }
    }
}

/// `≤` on providers is reflexive.
pub proof fn lemma_provider_le_refl(p: ProviderSpec)
    ensures
        provider_le(p, p),
{
    assert forall|k: Seq<char>| #[trigger] p.countables.contains_key(k) implies p.countables[k] <= count_of(p.countables, k) by {}
}

/// The free resources shrink, axis by axis, as a running job is added, and
/// grow as one is removed, wherever in the list it stands.
pub proof fn lemma_free_monotone(p: ProviderSpec, s: Seq<StatusSpec>, x: StatusSpec, i: int)
    requires
        0 <= i < s.len(),
    ensures
        provider_le(free_after(p, s.push(x)), free_after(p, s)),
        provider_le(free_after(p, s), free_after(p, s.remove(i))),
    decreases s.len(),
{
    assert(s.push(x).drop_last() == s);
    match x {
        StatusSpec::Running(job, _) => lemma_subtract_le(free_after(p, s), job.requirement),
        _ => lemma_provider_le_refl(free_after(p, s)),
    }
    let d = s.drop_last();
    if i == s.len() - 1 {
        assert(s.remove(i) == d);
        match s.last() {
            StatusSpec::Running(job, _) => lemma_subtract_le(free_after(p, d), job.requirement),
            _ => lemma_provider_le_refl(free_after(p, d)),
        }
    } else {
        lemma_free_monotone(p, d, x, i);
        assert(s.remove(i) == d.remove(i).push(s.last()));
        assert(s.remove(i).drop_last() == d.remove(i));
        match s.last() {
            StatusSpec::Running(job, _) => lemma_subtract_monotone(
                free_after(p, d),
                free_after(p, d.remove(i)),
                job.requirement,
            ),
            _ => {},
        }
    }
}

fn minus_countables(a: &mut Countables, b: &Countables)
    ensures
        final(a)@ == countables_minus(old(a)@, b@),
{
    let ghost a0 = a@;
    let mut i: usize = 0;
    while i < b.0.len()
        invariant
            0 <= i <= b.0.len(),
            a@ == countables_minus(a0, entries_view(b.0@.take(i as int))),
        decreases b.0.len() - i,
    {
        let ghost t = b.0@.take(i as int);
        assert(b.0@.take(i + 1).drop_last() == t);
        let first = find_key(&b.0, &b.0[i].0);
        if first == Some(i) {
            proof {
                lemma_entries_absent(t, b.0@[i as int].0@);
            }
            let k = b.0[i].0.as_str();
            let have = a.get(k);
            let take = b.0[i].1;
            let left: usize = if have >= take {
                have - take
            } else {
                0
            };
            a.set(k, left);
            assert(a@ =~= countables_minus(a0, entries_view(b.0@.take(i + 1))));
        } else {
            proof {
                let j = first.unwrap();
                assert(t[j as int].0@ == b.0@[i as int].0@);
                lemma_entries_dom(t, b.0@[i as int].0@);
            }
            assert(a@ =~= countables_minus(a0, entries_view(b.0@.take(i + 1))));
        }
        i = i + 1;
    }
    assert(b.0@.take(b.0@.len() as int) == b.0@);
    assert(a@ =~= countables_minus(a0, b@));
}

/// The nodes a requirement names: those of a `Select`, none otherwise.
fn named(n: &NodesRequirement) -> (r: Vec<usize>)
    ensures
        r@.to_set() == named_nodes(n@),
{
    match n {
        NodesRequirement::Select(s) => s.clone(),
        _ => {
            let v: Vec<usize> = Vec::new();
            assert(v@.to_set() =~= Set::<usize>::empty());
            v
        },
    }
}

/// The resources a vertex has free: its provider with the CPUs, memory
/// nodes and countables of every running job taken away (each amount floored
/// at 0); properties stay.
pub fn current_free(resources: &ResourcesProvider, jobs: &Vec<VertexJobStatus>) -> (r: ResourcesProvider)
    ensures
        r@ == free_after(resources@, status_views(jobs@)),
{
    let ghost s = status_views(jobs@);
    let mut free = resources.clone();
    let mut i: usize = 0;
    while i < jobs.len()
        invariant
            0 <= i <= jobs.len(),
            s == status_views(jobs@),
            free@ == free_after(resources@, s.take(i as int)),
        decreases jobs.len() - i,
    {
        assert(s.take(i + 1).drop_last() == s.take(i as int));
        assert(s.take(i + 1).last() == jobs@[i as int]@);
        match &jobs[i] {
            VertexJobStatus::Running(job, _) => {
                let used_cpus = named(&job.requirement.cpus);
                let used_mems = named(&job.requirement.mems);
                free.cpus = difference(&free.cpus, &used_cpus);
                free.mems = difference(&free.mems, &used_mems);
                minus_countables(&mut free.countables, &job.requirement.countables);
            },
            _ => {},
        }
        i = i + 1;
    }
    assert(s.take(i as int) == s);
    free
}

// ---------------------------------------------------------------------------
// Admission
// ---------------------------------------------------------------------------
/// `r` is a concrete choice for requirement `n` from the free nodes `t`:
/// `Use(k)` becomes the `k` smallest free nodes (all of them where fewer are
/// free), `Auto` becomes every free node, a `Select` stays as it is.
pub open spec fn concretized(n: NodesSpec, t: Set<usize>, r: NodesSpec) -> bool {
    match n {
        NodesSpec::Use(k) => match r {
            NodesSpec::Select(s) => {
                &&& s.subset_of(t)
                &&& s.len() == if k <= t.len() { k } else { t.len() }
                &&& forall|x: usize, y: usize| t.contains(x) && !s.contains(x) && s.contains(y) ==> y < x
            },
            _ => false,
        },
        NodesSpec::Auto => r == NodesSpec::Select(t),
        NodesSpec::Select(_) => r == n,
    }
}

fn concretize(n: &NodesRequirement, free: &Vec<usize>) -> (r: NodesRequirement)
    ensures
        concretized(n@, free@.to_set(), r@),
{
    match n {
        NodesRequirement::Use(k) => {
            let chosen = first_nodes(free, *k);
            proof {
                crate::nodes::lemma_increasing_len(chosen@);
            }
            NodesRequirement::Select(chosen)
        },
        NodesRequirement::Auto => NodesRequirement::Select(free.clone()),
        NodesRequirement::Select(s) => NodesRequirement::Select(s.clone()),
    }
}

/// Admission of a job against the resources free now: refused (`None`)
/// where they do not accept its requirement, memory nodes included; otherwise the job with its CPU
/// and memory requirements made concrete from the free nodes.
pub fn admit_job(free: &ResourcesProvider, job: JobConfiguration) -> (r: Option<JobConfiguration>)
    ensures
        r is Some <==> accepts_exclusive(free@, job@.requirement),
        r matches Some(j) ==> {
            &&& concretized(job@.requirement.cpus, free@.cpus, j@.requirement.cpus)
            &&& concretized(job@.requirement.mems, free@.mems, j@.requirement.mems)
            &&& j@ == (JobSpec {
                requirement: RequirementSpec {
                    cpus: j@.requirement.cpus,
                    mems: j@.requirement.mems,
                    ..job@.requirement
                },
                ..job@
            })
        },
{
    if !free.execlusive_mem_acceptable(&job.requirement) {
        return None;
    }
    let cpus = concretize(&job.requirement.cpus, &free.cpus);
    let mems = concretize(&job.requirement.mems, &free.mems);
    Some(job.set_cpuset(cpus, mems))
}

/// The records of `user`, in order, as task id and status.
pub open spec fn user_jobs(s: Seq<((String, String), VertexJobStatus)>, user: Seq<char>) -> Seq<
    (Seq<char>, StatusSpec),
>
    decreases s.len(),
{
    if s.len() == 0 {
        Seq::empty()
    } else {
        let r = user_jobs(s.drop_last(), user);
        if s.last().0.0@ == user {
            r.push((s.last().0.1@, s.last().1@))
        } else {
            r
        }
    }
}

pub open spec fn listed_views(v: Seq<(String, VertexJobStatus)>) -> Seq<(Seq<char>, StatusSpec)> {
    v.map_values(|e: (String, VertexJobStatus)| (e.0@, e.1@))
}

/// The jobs that `user` submitted, by task id, from the vertex's records
/// keyed by user and task id.
pub fn jobs_of_user(jobs: &Vec<((String, String), VertexJobStatus)>, user: &str) -> (r: Vec<(String, VertexJobStatus)>)
    ensures
        listed_views(r@) == user_jobs(jobs@, user@),
{
    let name = user.to_owned();
    let mut out: Vec<(String, VertexJobStatus)> = Vec::new();
    let mut i: usize = 0;
    while i < jobs.len()
        invariant
            0 <= i <= jobs.len(),
            name@ == user@,
            listed_views(out@) == user_jobs(jobs@.take(i as int), user@),
        decreases jobs.len() - i,
    {
        assert(jobs@.take(i + 1).drop_last() == jobs@.take(i as int));
        assert(jobs@.take(i + 1).last() == jobs@[i as int]);
        if jobs[i].0.0 == name {
            let e = (jobs[i].0.1.clone(), jobs[i].1.clone());
            let ghost before = out@;
            out.push(e);
            assert(listed_views(out@) =~= listed_views(before).push((e.0@, e.1@)));
        }
        i = i + 1;
    }
    assert(jobs@.take(i as int) == jobs@);
    out
}

/// The name of the countable that caps a job's memory, in bytes.
pub open spec fn memory_key() -> Seq<char> {
    seq!['m', 'e', 'm', 'o', 'r', 'y']
}

/// The settings of a job's control group: the text of its CPU set, the text
/// of its memory-node set (ascending decimal numbers joined by commas), and
/// its memory cap in bytes (the countable `memory`). `None` where the CPUs or
/// the memory nodes are not a non-empty selection.
pub fn cgroup_settings(job: &JobConfiguration) -> (r: Option<(String, String, usize)>)
    ensures
        r is Some <==> (job.requirement.cpus is Select && named_nodes(job@.requirement.cpus).len() > 0
            && job.requirement.mems is Select && named_nodes(job@.requirement.mems).len() > 0),
        r matches Some(t) ==> {
            &&& exists|s: Seq<usize>|
                strictly_increasing(s) && s.to_set() == named_nodes(job@.requirement.cpus) && t.0@
                    == joined_decimals(s)
            &&& exists|s: Seq<usize>|
                strictly_increasing(s) && s.to_set() == named_nodes(job@.requirement.mems) && t.1@
                    == joined_decimals(s)
            &&& t.2 == count_of(job@.requirement.countables, memory_key())
        },
{
    let cpus = match job.requirement.cpus.to_string() {
        Some(text) => text,
        None => {
            return None;
        },
    };
    let mems = match job.requirement.mems.to_string() {
        Some(text) => text,
        None => {
            return None;
        },
    };
    let key = "memory";
    proof {
        reveal_strlit("memory");
        assert(key@ =~= memory_key());
    }
    let memory = job.requirement.countables.get(key);
    Some((cpus, mems, memory))
}

} // verus!
