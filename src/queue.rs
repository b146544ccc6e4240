//! One queue: admission policy, fairness limits, priority scoring, the
//! pending entries and the jobs that run from it.
//!
//! Priority weights are fixed-point numbers in millionths (`1_000_000`
//! stands for a factor of 1); a score is an `i128` in the same unit, and each
//! addition saturates at the bounds of `i128`.
use vstd::prelude::*;

use crate::jobs::{JobConfiguration, JobSpec};
use crate::resources::{
    count_of, properties_conflict, NodesRequirement, NodesSpec, Properties, RequirementSpec,
    ResourcesRequirement,
};
use crate::nodes::node_count;
use crate::util::{fresh_task_id, now_to_secs};

verus! {

// ---------------------------------------------------------------------------
// Priority rules
// ---------------------------------------------------------------------------
/// One term of a queue's priority score.
pub enum PriorityRule {
    /// By the job's CPU requirement: `|S| * select` for `Select(S)`,
    /// `n * use` for `Use(n)`, `auto` for `Auto`.
    CpusetRule(i64, i64, i64),
    /// `offset + amount * ratio` for the countable named.
    CountableRule(String, i64, i64),
    /// `offset` where the job's property is set to the value.
    PropertyRule(String, String, i64),
    /// `seconds waited * factor`.
    WaitingRule(i64),
}

/// The meaning of a priority rule.
pub enum RuleSpec {
    CpusetRule(i64, i64, i64),
    CountableRule(Seq<char>, i64, i64),
    PropertyRule(Seq<char>, Seq<char>, i64),
    WaitingRule(i64),
}

impl View for PriorityRule {
    type V = RuleSpec;

    open spec fn view(&self) -> RuleSpec {
        match self {
            PriorityRule::CpusetRule(a, b, c) => RuleSpec::CpusetRule(*a, *b, *c),
            PriorityRule::CountableRule(k, o, r) => RuleSpec::CountableRule(k@, *o, *r),
            PriorityRule::PropertyRule(k, v, o) => RuleSpec::PropertyRule(k@, v@, *o),
            PriorityRule::WaitingRule(f) => RuleSpec::WaitingRule(*f),
        }
    }
}

impl Clone for PriorityRule {
    fn clone(&self) -> (r: Self)
        ensures
            r@ == self@,
    {
        match self {
            PriorityRule::CpusetRule(a, b, c) => PriorityRule::CpusetRule(*a, *b, *c),
            PriorityRule::CountableRule(k, o, r) => PriorityRule::CountableRule(k.clone(), *o, *r),
            PriorityRule::PropertyRule(k, v, o) => PriorityRule::PropertyRule(
                k.clone(),
                v.clone(),
                *o,
            ),
            PriorityRule::WaitingRule(f) => PriorityRule::WaitingRule(*f),
        }
    }
}

/// `x` held within the bounds of `i128`.
pub open spec fn saturate(x: int) -> int {
    if x > i128::MAX {
        i128::MAX as int
    } else if x < i128::MIN {
        i128::MIN as int
    } else {
        x
    }
}

/// The score after adding the term of `rule` to `acc`.
pub open spec fn apply_rule(acc: int, rule: RuleSpec, req: RequirementSpec, waited: nat) -> int {
    match rule {
        RuleSpec::PropertyRule(k, v, offset) => {
            if req.properties.contains_key(k) && req.properties[k] == v {
                saturate(acc + offset)
            } else {
                acc
            }
        },
        RuleSpec::CountableRule(k, offset, ratio) => saturate(
            saturate(acc + offset) + count_of(req.countables, k) * ratio,
        ),
        RuleSpec::CpusetRule(select, use_factor, auto) => match req.cpus {
            NodesSpec::Select(s) => saturate(acc + s.len() * select),
            NodesSpec::Use(n) => saturate(acc + n * use_factor),
            NodesSpec::Auto => saturate(acc + auto),
        },
        RuleSpec::WaitingRule(factor) => saturate(acc + waited * factor),
    }
}

/// The priority score of a requirement that has waited `waited` seconds,
/// the terms of `rules` added in order.
pub open spec fn priority_of(rules: Seq<RuleSpec>, req: RequirementSpec, waited: nat) -> int
    decreases rules.len(),
{
    if rules.len() == 0 {
        0
    } else {
        apply_rule(priority_of(rules.drop_last(), req, waited), rules.last(), req, waited)
    }
}

/// The seconds from `at` to `now`; none where the clock stands before `at`.
pub open spec fn waited(now: u64, at: u64) -> nat {
    if now >= at {
        (now - at) as nat
    } else {
        0
    }
}

/// A priority depends on the rules, the requirement and the time waited, and
/// on nothing else.
pub proof fn lemma_priority_pure(
    rules_a: Seq<RuleSpec>,
    rules_b: Seq<RuleSpec>,
    req_a: RequirementSpec,
    req_b: RequirementSpec,
    now_a: u64,
    at_a: u64,
    now_b: u64,
    at_b: u64,
)
    requires
        rules_a == rules_b,
        req_a == req_b,
        waited(now_a, at_a) == waited(now_b, at_b),
    ensures
        priority_of(rules_a, req_a, waited(now_a, at_a)) == priority_of(rules_b, req_b, waited(now_b, at_b)),
{
}

/// Under a single waiting rule with a positive factor, an entry queued
/// earlier ranks strictly higher than one queued later, whatever the jobs
/// ask for.
pub proof fn lemma_waiting_rule_orders(
    factor: i64,
    req_old: RequirementSpec,
    req_new: RequirementSpec,
    now: u64,
    at_old: u64,
    at_new: u64,
)
    requires
        factor > 0,
        at_old < at_new <= now,
    ensures
        priority_of(seq![RuleSpec::WaitingRule(factor)], req_old, waited(now, at_old))
            > priority_of(seq![RuleSpec::WaitingRule(factor)], req_new, waited(now, at_new)),
{
    let rules = seq![RuleSpec::WaitingRule(factor)];
    assert(rules.drop_last() == Seq::<RuleSpec>::empty());
    let w_old = waited(now, at_old);
    let w_new = waited(now, at_new);
    assert(w_old > w_new);
    assert(w_old * factor > w_new * factor) by (nonlinear_arith)
        requires
            w_old > w_new,
            factor > 0,
    ;
    assert(w_old * factor <= u64::MAX * i64::MAX) by (nonlinear_arith)
        requires
            w_old <= u64::MAX,
            0 < factor <= i64::MAX,
    ;
    assert(w_new * factor >= 0) by (nonlinear_arith)
        requires
            factor > 0,
    ;
    assert(rules.last() == RuleSpec::WaitingRule(factor));
    assert(priority_of(rules.drop_last(), req_old, w_old) == 0);
    assert(priority_of(rules.drop_last(), req_new, w_new) == 0);
    assert(priority_of(rules, req_old, w_old) == saturate(0 + w_old * factor));
    assert(priority_of(rules, req_new, w_new) == saturate(0 + w_new * factor));
    assert(18446744073709551615int * 9223372036854775807int < 170141183460469231731687303715884105727int);
}

/// Dropping from the running list a job of `u` whose id is not in `ids`
/// frees a running slot of `u`: fewer of `u`'s jobs run afterwards.
pub proof fn lemma_keep_ids_frees_slot(s: Seq<RunningSpec>, ids: Set<Seq<char>>, scope: Scope, k: int)
    requires
        0 <= k < s.len(),
        !ids.contains(s[k].0),
        in_scope(s[k].1, scope),
    ensures
        running_count(keep_ids(s, ids), scope) < running_count(s, scope),
    decreases s.len(),
{
    lemma_keep_ids_count(s.drop_last(), ids, scope);
    if k < s.len() - 1 {
        lemma_keep_ids_frees_slot(s.drop_last(), ids, scope, k);
        assert(s.drop_last()[k] == s[k]);
    }
    assert(keep_ids(s, ids) == if ids.contains(s.last().0) {
        keep_ids(s.drop_last(), ids).push(s.last())
    } else {
        keep_ids(s.drop_last(), ids)
    });
    if ids.contains(s.last().0) {
        assert(keep_ids(s, ids).drop_last() == keep_ids(s.drop_last(), ids));
    }
}

/// Keeping some running jobs never adds to a count.
pub proof fn lemma_keep_ids_count(s: Seq<RunningSpec>, ids: Set<Seq<char>>, scope: Scope)
    ensures
        running_count(keep_ids(s, ids), scope) <= running_count(s, scope),
    decreases s.len(),
{
    if s.len() > 0 {
        lemma_keep_ids_count(s.drop_last(), ids, scope);
        if ids.contains(s.last().0) {
            assert(keep_ids(s, ids).drop_last() == keep_ids(s.drop_last(), ids));
        }
    }
}

/// A queued entry whose owner and group may run now is among the entries
/// offered for dispatch.
pub proof fn lemma_offered(q: QueueSpec, s: Seq<EntrySpec>, now: u64, k: int)
    requires
        0 <= k < s.len(),
        s[k].2 is Some,
        may_run(q, s[k].1),
    ensures
        exists|m: int| 0 <= m < candidates(q, s, now, true).len() && (#[trigger] candidates(q, s, now, true)[m]).0 == s[k].0,
    decreases s.len(),
{
    let rest = candidates(q, s.drop_last(), now, true);
    if k < s.len() - 1 {
        lemma_offered(q, s.drop_last(), now, k);
        assert(s.drop_last()[k] == s[k]);
        let m = choose|m: int| 0 <= m < rest.len() && (#[trigger] rest[m]).0 == s[k].0;
        let c = candidates(q, s, now, true);
        assert(c[m] == rest[m]);
    } else {
        let c = candidates(q, s, now, true);
        assert(c[rest.len() as int].0 == s[k].0);
    }
}

/// Every entry offered by `candidates` is one of the entries looked at.
pub proof fn lemma_candidates_from(q: QueueSpec, s: Seq<EntrySpec>, now: u64, fair: bool)
    ensures
        forall|m: int|
            0 <= m < candidates(q, s, now, fair).len() ==> exists|k: int|
                0 <= k < s.len() && (#[trigger] s[k]).0 == (#[trigger] candidates(q, s, now, fair)[m]).0,
    decreases s.len(),
{
    if s.len() > 0 {
        let d = s.drop_last();
        lemma_candidates_from(q, d, now, fair);
        let r = candidates(q, d, now, fair);
        let c = candidates(q, s, now, fair);
        assert forall|m: int| 0 <= m < c.len() implies exists|k: int|
            0 <= k < s.len() && (#[trigger] s[k]).0 == (#[trigger] c[m]).0 by {
            if m < r.len() {
                assert(c[m] == r[m]);
                let k = choose|k: int| 0 <= k < d.len() && (#[trigger] d[k]).0 == r[m].0;
                assert(s[k] == d[k]);
            } else {
                assert(c[m].0 == s[s.len() - 1].0);
            }
        }
    }
}

fn sat_add(a: i128, b: i128) -> (r: i128)
    ensures
        r == saturate(a + b),
{
    if b > 0 && a > i128::MAX - b {
        i128::MAX
    } else if b < 0 && a < i128::MIN - b {
        i128::MIN
    } else {
        a + b
    }
}

fn scaled(n: u64, factor: i64) -> (r: i128)
    ensures
        r == n * factor,
{
    let a = n as i128;
    let b = factor as i128;
    proof {
        assert(0 <= a <= u64::MAX);
        assert(i64::MIN <= b <= i64::MAX);
        assert(-(u64::MAX as int) * (i64::MAX as int + 1) <= a * b <= (u64::MAX as int) * (
        i64::MAX as int + 1)) by (nonlinear_arith)
            requires
                0 <= a <= u64::MAX,
                i64::MIN <= b <= i64::MAX,
        ;
    }
    a * b
}

// ---------------------------------------------------------------------------
// Admission and limits
// ---------------------------------------------------------------------------
/// Which users or groups a queue admits.
pub enum IdControl {
    /// Only these ids.
    Allow(Vec<u32>),
    /// Every id but these.
    Deny(Vec<u32>),
}

/// The meaning of an id control.
pub enum IdSpec {
    Allow(Set<u32>),
    Deny(Set<u32>),
}

impl View for IdControl {
    type V = IdSpec;

    open spec fn view(&self) -> IdSpec {
        match self {
            IdControl::Allow(v) => IdSpec::Allow(v@.to_set()),
            IdControl::Deny(v) => IdSpec::Deny(v@.to_set()),
        }
    }
}

/// Whether `id` passes the control.
pub open spec fn id_allowed(c: IdSpec, id: u32) -> bool {
    match c {
        IdSpec::Allow(s) => s.contains(id),
        IdSpec::Deny(s) => !s.contains(id),
    }
}

fn contains_id(v: &Vec<u32>, id: u32) -> (r: bool)
    ensures
        r == v@.to_set().contains(id),
{
    let mut i: usize = 0;
    while i < v.len()
        invariant
            0 <= i <= v.len(),
            forall|j: int| 0 <= j < i ==> v@[j] != id,
        decreases v.len() - i,
    {
        if v[i] == id {
            return true;
        }
        i = i + 1;
    }
    false
}

impl Clone for IdControl {
    fn clone(&self) -> (r: Self)
        ensures
            r@ == self@,
    {
        match self {
            IdControl::Allow(v) => IdControl::Allow(v.clone()),
            IdControl::Deny(v) => IdControl::Deny(v.clone()),
        }
    }
}

impl IdControl {
    /// Whether `id` passes the control.
    pub fn allow(&self, id: &u32) -> (r: bool)
        ensures
            r == id_allowed(self@, *id),
    {
        match self {
            IdControl::Allow(allowed) => contains_id(allowed, *id),
            IdControl::Deny(denied) => !contains_id(denied, *id),
        }
    }
}

/// Caps on jobs running and jobs queued.
#[derive(Clone, Copy)]
pub struct AmountLimit {
    pub max_running: usize,
    pub max_queue: usize,
}

/// The policy of a queue.
pub struct QueueConfiguration {
    pub priority_rule: Vec<PriorityRule>,
    pub users: IdControl,
    pub groups: IdControl,
    /// Added to the properties of every job the queue admits.
    pub properties: Properties,
    pub global_limit: Option<AmountLimit>,
    pub user_limit: Option<AmountLimit>,
    pub group_limit: Option<AmountLimit>,
}

/// The meaning of a queue's policy.
pub struct QueueConfigSpec {
    pub rules: Seq<RuleSpec>,
    pub users: IdSpec,
    pub groups: IdSpec,
    pub properties: Map<Seq<char>, Seq<char>>,
    pub global_limit: Option<AmountLimit>,
    pub user_limit: Option<AmountLimit>,
    pub group_limit: Option<AmountLimit>,
}

/// The meanings of a list of rules.
pub open spec fn rule_views(v: Seq<PriorityRule>) -> Seq<RuleSpec> {
    v.map_values(|r: PriorityRule| r@)
}

impl View for QueueConfiguration {
    type V = QueueConfigSpec;

    open spec fn view(&self) -> QueueConfigSpec {
        QueueConfigSpec {
            rules: rule_views(self.priority_rule@),
            users: self.users@,
            groups: self.groups@,
            properties: self.properties@,
            global_limit: self.global_limit,
            user_limit: self.user_limit,
            group_limit: self.group_limit,
        }
    }
}

impl Clone for QueueConfiguration {
    fn clone(&self) -> (r: Self)
        ensures
            r@ == self@,
    {
        let mut rules: Vec<PriorityRule> = Vec::new();
        let mut i: usize = 0;
        while i < self.priority_rule.len()
            invariant
                0 <= i <= self.priority_rule.len(),
                rules@.len() == i,
                forall|j: int| 0 <= j < i ==> (#[trigger] rules@[j])@ == self.priority_rule@[j]@,
            decreases self.priority_rule.len() - i,
        {
            rules.push(self.priority_rule[i].clone());
            i = i + 1;
        }
        assert(rule_views(rules@) =~= rule_views(self.priority_rule@));
        QueueConfiguration {
            priority_rule: rules,
            users: self.users.clone(),
            groups: self.groups.clone(),
            properties: self.properties.clone(),
            global_limit: self.global_limit,
            user_limit: self.user_limit,
            group_limit: self.group_limit,
        }
    }
}

/// Whether the policy admits a job: its owner and group pass the controls
/// and its properties do not contradict the queue's.
pub open spec fn admits(c: QueueConfigSpec, job: JobSpec) -> bool {
    &&& id_allowed(c.users, job.uid)
    &&& id_allowed(c.groups, job.gid)
    &&& !properties_conflict(c.properties, job.requirement.properties)
}

impl QueueConfiguration {
    /// Whether the queue admits the job.
    pub fn can_be_added(&self, job: &JobConfiguration) -> (r: bool)
        ensures
            r == admits(self@, job@),
    {
        self.users.allow(&job.uid) && self.groups.allow(&job.gid) && !self.properties.conflict(
            &job.requirement.properties,
        )
    }

    /// The priority score of a requirement that has waited `waited` seconds.
    pub fn priority(&self, requirement: &ResourcesRequirement, waited: u64) -> (r: i128)
        ensures
            r == priority_of(self@.rules, requirement@, waited as nat),
    {
        let mut acc: i128 = 0;
        let mut i: usize = 0;
        while i < self.priority_rule.len()
            invariant
                0 <= i <= self.priority_rule.len(),
                acc == priority_of(
                    rule_views(self.priority_rule@).take(i as int),
                    requirement@,
                    waited as nat,
                ),
            decreases self.priority_rule.len() - i,
        {
            let ghost before = rule_views(self.priority_rule@).take(i as int);
            assert(rule_views(self.priority_rule@).take(i + 1).drop_last() == before);
            match &self.priority_rule[i] {
                PriorityRule::PropertyRule(k, v, offset) => {
                    if requirement.properties.matches(k.as_str(), v.as_str()) {
                        acc = sat_add(acc, *offset as i128);
                    }
                },
                PriorityRule::CountableRule(k, offset, ratio) => {
                    let amount = requirement.countables.get(k.as_str());
                    acc = sat_add(acc, *offset as i128);
                    acc = sat_add(acc, scaled(amount as u64, *ratio));
                },
                PriorityRule::CpusetRule(select, use_factor, auto) => {
                    match &requirement.cpus {
                        NodesRequirement::Select(s) => {
                            let n = node_count(s);
                            acc = sat_add(acc, scaled(n as u64, *select));
                        },
                        NodesRequirement::Use(n) => {
                            acc = sat_add(acc, scaled(*n as u64, *use_factor));
                        },
                        NodesRequirement::Auto => {
                            acc = sat_add(acc, *auto as i128);
                        },
                    }
                },
                PriorityRule::WaitingRule(factor) => {
                    acc = sat_add(acc, scaled(waited, *factor));
                },
            }
            i = i + 1;
        }
        assert(rule_views(self.priority_rule@).take(i as int) == rule_views(self.priority_rule@));
        acc
    }
}

// ---------------------------------------------------------------------------
// The queue
// ---------------------------------------------------------------------------
/// The meaning of a pending entry: task id, job, and the second it was
/// queued (`None` while it is held back by the queue limits).
pub type EntrySpec = (Seq<char>, JobSpec, Option<u64>);

/// The meaning of a running entry: task id and job.
pub type RunningSpec = (Seq<char>, JobSpec);

/// The meaning of a ranked entry: task id, job, second queued, priority.
pub type CandidateSpec = (Seq<char>, JobSpec, u64, int);

/// A queue: its policy, its pending entries in order of arrival, and the
/// jobs that were handed to a vertex from it.
pub struct Queue {
    pub configuration: QueueConfiguration,
    pub jobs: Vec<(String, JobConfiguration, Option<u64>)>,
    pub running: Vec<(String, JobConfiguration)>,
}

/// The meaning of a queue.
pub struct QueueSpec {
    pub config: QueueConfigSpec,
    pub pending: Seq<EntrySpec>,
    pub running: Seq<RunningSpec>,
}

pub open spec fn entry_views(v: Seq<(String, JobConfiguration, Option<u64>)>) -> Seq<EntrySpec> {
    v.map_values(|e: (String, JobConfiguration, Option<u64>)| (e.0@, e.1@, e.2))
}

pub open spec fn running_views(v: Seq<(String, JobConfiguration)>) -> Seq<RunningSpec> {
    v.map_values(|e: (String, JobConfiguration)| (e.0@, e.1@))
}

pub open spec fn candidate_views(v: Seq<(String, JobConfiguration, u64, i128)>) -> Seq<CandidateSpec> {
    v.map_values(|c: (String, JobConfiguration, u64, i128)| (c.0@, c.1@, c.2, c.3 as int))
}

impl View for Queue {
    type V = QueueSpec;

    open spec fn view(&self) -> QueueSpec {
        QueueSpec {
            config: self.configuration@,
            pending: entry_views(self.jobs@),
            running: running_views(self.running@),
        }
    }
}

/// A queue is well formed when its pending task ids are distinct and none of
/// them is the id of a running job.
pub open spec fn queue_wf(q: QueueSpec) -> bool {
    &&& forall|i: int, j: int|
        0 <= i < j < q.pending.len() ==> (#[trigger] q.pending[i]).0 != (#[trigger] q.pending[j]).0
    &&& forall|i: int, j: int|
        0 <= i < q.pending.len() && 0 <= j < q.running.len() ==> (#[trigger] q.pending[i]).0
            != (#[trigger] q.running[j]).0
}

/// In a well-formed queue the task ids of the pending entries and those of
/// the running jobs form disjoint sets.
pub proof fn lemma_pending_running_disjoint(q: QueueSpec)
    requires
        queue_wf(q),
    ensures
        q.pending.map_values(|e: EntrySpec| e.0).to_set().disjoint(
            q.running.map_values(|e: RunningSpec| e.0).to_set(),
        ),
{
    let p = q.pending.map_values(|e: EntrySpec| e.0);
    let r = q.running.map_values(|e: RunningSpec| e.0);
    assert forall|x: Seq<char>| p.to_set().contains(x) implies !r.to_set().contains(x) by {
        let i = choose|i: int| 0 <= i < p.len() && p[i] == x;
        if r.to_set().contains(x) {
            let j = choose|j: int| 0 <= j < r.len() && r[j] == x;
            assert(q.pending[i].0 != q.running[j].0);
        }
    }
}

/// Whose jobs a count takes in.
#[derive(Clone, Copy)]
pub enum Scope {
    All,
    User(u32),
    Group(u32),
}

pub open spec fn in_scope(j: JobSpec, scope: Scope) -> bool {
    match scope {
        Scope::All => true,
        Scope::User(uid) => j.uid == uid,
        Scope::Group(gid) => j.gid == gid,
    }
}

/// The number of queued (not held) entries in scope.
pub open spec fn queued_count(s: Seq<EntrySpec>, scope: Scope) -> nat
    decreases s.len(),
{
    if s.len() == 0 {
        0
    } else {
        queued_count(s.drop_last(), scope) + if s.last().2 is Some && in_scope(s.last().1, scope) {
            1nat
        } else {
            0nat
        }
    }
}

/// The number of running jobs in scope.
pub open spec fn running_count(s: Seq<RunningSpec>, scope: Scope) -> nat
    decreases s.len(),
{
    if s.len() == 0 {
        0
    } else {
        running_count(s.drop_last(), scope) + if in_scope(s.last().1, scope) {
            1nat
        } else {
            0nat
        }
    }
}

pub open spec fn limit_for(c: QueueConfigSpec, scope: Scope) -> Option<AmountLimit> {
    match scope {
        Scope::All => c.global_limit,
        Scope::User(_) => c.user_limit,
        Scope::Group(_) => c.group_limit,
    }
}

/// The queued entries in scope have reached their cap; no cap, never.
pub open spec fn queue_full_in(q: QueueSpec, scope: Scope) -> bool {
    match limit_for(q.config, scope) {
        Some(l) => queued_count(q.pending, scope) >= l.max_queue,
        None => false,
    }
}

/// The running jobs in scope have reached their cap; no cap, never.
pub open spec fn running_full_in(q: QueueSpec, scope: Scope) -> bool {
    match limit_for(q.config, scope) {
        Some(l) => running_count(q.running, scope) >= l.max_running,
        None => false,
    }
}

/// A held entry of this owner and group may be queued now.
pub open spec fn queueable(q: QueueSpec, uid: u32, gid: u32) -> bool {
    !queue_full_in(q, Scope::All) && !queue_full_in(q, Scope::User(uid)) && !queue_full_in(
        q,
        Scope::Group(gid),
    )
}

/// A job of this owner and group may be started now without breaking a
/// running cap.
pub open spec fn may_run(q: QueueSpec, j: JobSpec) -> bool {
    !running_full_in(q, Scope::All) && !running_full_in(q, Scope::User(j.uid)) && !running_full_in(
        q,
        Scope::Group(j.gid),
    )
}

/// The queued entries of `s`, in order, with their priority at `now`; with
/// `fair`, only those that `may_run`.
pub open spec fn candidates(q: QueueSpec, s: Seq<EntrySpec>, now: u64, fair: bool) -> Seq<
    CandidateSpec,
>
    decreases s.len(),
{
    if s.len() == 0 {
        Seq::empty()
    } else {
        let rest = candidates(q, s.drop_last(), now, fair);
        let e = s.last();
        match e.2 {
            Some(at) => if !fair || may_run(q, e.1) {
                rest.push(
                    (e.0, e.1, at, priority_of(q.config.rules, e.1.requirement, waited(now, at))),
                )
            } else {
                rest
            },
            None => rest,
        }
    }
}

/// The queue after the held entries from index `i` on have been looked at in
/// order, each queued at `now` if its owner and group are `queueable` then.
pub open spec fn promoted(q: QueueSpec, i: int, now: u64) -> QueueSpec
    decreases q.pending.len() - i,
{
    if i < 0 || i >= q.pending.len() {
        q
    } else {
        let e = q.pending[i];
        let next = if e.2 is None && queueable(q, e.1.uid, e.1.gid) {
            QueueSpec { pending: q.pending.update(i, (e.0, e.1, Some(now))), ..q }
        } else {
            q
        };
        promoted(next, i + 1, now)
    }
}

/// The job with the queue's properties added to its own.
pub open spec fn merged_job(j: JobSpec, props: Map<Seq<char>, Seq<char>>) -> JobSpec {
    JobSpec {
        requirement: RequirementSpec {
            properties: j.requirement.properties.union_prefer_right(props),
            ..j.requirement
        },
        ..j
    }
}

/// Whether a task id is pending or running in the queue.
pub open spec fn id_in_use(q: QueueSpec, id: Seq<char>) -> bool {
    (exists|i: int| 0 <= i < q.pending.len() && (#[trigger] q.pending[i]).0 == id) || (exists|
        j: int,
    |
        0 <= j < q.running.len() && (#[trigger] q.running[j]).0 == id)
}

/// No task id of the queue, pending or running, has the 36 characters of a
/// freshly drawn id; a drawn id then cannot clash with one of them.
pub open spec fn clear_of_drawn_ids(q: QueueSpec) -> bool {
    &&& forall|i: int| 0 <= i < q.pending.len() ==> (#[trigger] q.pending[i]).0.len() != 36
    &&& forall|j: int| 0 <= j < q.running.len() ==> (#[trigger] q.running[j]).0.len() != 36
}

/// The running entries without those of id `id`.
pub open spec fn without_id(s: Seq<RunningSpec>, id: Seq<char>) -> Seq<RunningSpec>
    decreases s.len(),
{
    if s.len() == 0 {
        s
    } else {
        let r = without_id(s.drop_last(), id);
        if s.last().0 == id {
            r
        } else {
            r.push(s.last())
        }
    }
}

/// The running entries whose ids are in `ids`.
pub open spec fn keep_ids(s: Seq<RunningSpec>, ids: Set<Seq<char>>) -> Seq<RunningSpec>
    decreases s.len(),
{
    if s.len() == 0 {
        s
    } else {
        let r = keep_ids(s.drop_last(), ids);
        if ids.contains(s.last().0) {
            r.push(s.last())
        } else {
            r
        }
    }
}

pub proof fn lemma_without_id(s: Seq<RunningSpec>, id: Seq<char>)
    ensures
        forall|k: int|
            0 <= k < without_id(s, id).len() ==> s.contains(#[trigger] without_id(s, id)[k])
                && without_id(s, id)[k].0 != id,
    decreases s.len(),
{
    if s.len() > 0 {
        lemma_without_id(s.drop_last(), id);
        let r = without_id(s.drop_last(), id);
        assert forall|k: int| 0 <= k < without_id(s, id).len() implies s.contains(
            #[trigger] without_id(s, id)[k],
        ) && without_id(s, id)[k].0 != id by {
            if k < r.len() {
                assert(s.drop_last().contains(r[k]));
                let m = choose|m: int| 0 <= m < s.drop_last().len() && s.drop_last()[m] == r[k];
                assert(s[m] == r[k]);
            } else {
                assert(s[s.len() - 1] == s.last());
            }
        }
    }
}

/// Every entry that `keep_ids` keeps comes from `s` and has its id in `ids`.
pub proof fn lemma_keep_ids(s: Seq<RunningSpec>, ids: Set<Seq<char>>)
    ensures
        forall|k: int|
            0 <= k < keep_ids(s, ids).len() ==> s.contains(#[trigger] keep_ids(s, ids)[k])
                && ids.contains(keep_ids(s, ids)[k].0),
    decreases s.len(),
{
    if s.len() > 0 {
        lemma_keep_ids(s.drop_last(), ids);
        let r = keep_ids(s.drop_last(), ids);
        assert forall|k: int| 0 <= k < keep_ids(s, ids).len() implies s.contains(
            #[trigger] keep_ids(s, ids)[k],
        ) && ids.contains(keep_ids(s, ids)[k].0) by {
            if k < r.len() {
                assert(s.drop_last().contains(r[k]));
                let m = choose|m: int| 0 <= m < s.drop_last().len() && s.drop_last()[m] == r[k];
                assert(s[m] == r[k]);
            } else {
                assert(s[s.len() - 1] == s.last());
            }
        }
    }
}

/// Promotion changes only the queued times of pending entries.
pub proof fn lemma_promoted_keeps(q: QueueSpec, i: int, now: u64)
    ensures
        promoted(q, i, now).config == q.config,
        promoted(q, i, now).running == q.running,
        promoted(q, i, now).pending.len() == q.pending.len(),
        forall|k: int|
            0 <= k < q.pending.len() ==> (#[trigger] promoted(q, i, now).pending[k]).0
                == q.pending[k].0 && promoted(q, i, now).pending[k].1 == q.pending[k].1,
    decreases q.pending.len() - i,
{
    if !(i < 0 || i >= q.pending.len()) {
        let e = q.pending[i];
        let next = if e.2 is None && queueable(q, e.1.uid, e.1.gid) {
            QueueSpec { pending: q.pending.update(i, (e.0, e.1, Some(now))), ..q }
        } else {
            q
        };
        lemma_promoted_keeps(next, i + 1, now);
    }
}

/// Removing a pending entry keeps a queue well formed.
pub proof fn lemma_wf_remove(q: QueueSpec, i: int)
    requires
        queue_wf(q),
        0 <= i < q.pending.len(),
    ensures
        queue_wf(QueueSpec { pending: q.pending.remove(i), ..q }),
{
    let p = q.pending.remove(i);
    assert forall|a: int, b: int| 0 <= a < b < p.len() implies (#[trigger] p[a]).0
        != (#[trigger] p[b]).0 by {
        let a0 = if a < i { a } else { a + 1 };
        let b0 = if b < i { b } else { b + 1 };
        assert(p[a] == q.pending[a0]);
        assert(p[b] == q.pending[b0]);
    }
    assert forall|a: int, j: int| 0 <= a < p.len() && 0 <= j < q.running.len() implies (
    #[trigger] p[a]).0 != (#[trigger] q.running[j]).0 by {
        let a0 = if a < i { a } else { a + 1 };
        assert(p[a] == q.pending[a0]);
    }
}

/// Saved entries as a queue takes them back: in order, each unless its id is
/// running or was taken already.
pub open spec fn restored(saved: Seq<EntrySpec>, running: Seq<RunningSpec>) -> Seq<EntrySpec>
    decreases saved.len(),
{
    if saved.len() == 0 {
        Seq::empty()
    } else {
        let r = restored(saved.drop_last(), running);
        let id = saved.last().0;
        if (exists|j: int| 0 <= j < r.len() && (#[trigger] r[j]).0 == id) || (exists|j: int|
            0 <= j < running.len() && (#[trigger] running[j]).0 == id) {
            r
        } else {
            r.push(saved.last())
        }
    }
}

/// Every entry that `restored` keeps comes from the saved entries.
pub proof fn lemma_restored_from(saved: Seq<EntrySpec>, running: Seq<RunningSpec>)
    ensures
        forall|k: int| 0 <= k < restored(saved, running).len() ==> saved.contains(#[trigger] restored(saved, running)[k]),
    decreases saved.len(),
{
    if saved.len() > 0 {
        lemma_restored_from(saved.drop_last(), running);
        let r = restored(saved.drop_last(), running);
        assert forall|k: int| 0 <= k < restored(saved, running).len() implies saved.contains(#[trigger] restored(saved, running)[k]) by {
            if k < r.len() {
                assert(saved.drop_last().contains(r[k]));
                let m = choose|m: int| 0 <= m < saved.drop_last().len() && saved.drop_last()[m] == r[k];
                assert(saved[m] == r[k]);
            } else {
                assert(saved[saved.len() - 1] == saved.last());
            }
        }
    }
}

/// Queuing a held entry never lowers a count of queued entries.
pub proof fn lemma_queued_count_grows(s: Seq<EntrySpec>, k: int, at: u64, scope: Scope)
    requires
        0 <= k < s.len(),
        s[k].2 is None,
    ensures
        queued_count(s.update(k, (s[k].0, s[k].1, Some(at))), scope) >= queued_count(s, scope),
    decreases s.len(),
{
    let t = s.update(k, (s[k].0, s[k].1, Some(at)));
    if k < s.len() - 1 {
        lemma_queued_count_grows(s.drop_last(), k, at, scope);
        assert(t.drop_last() == s.drop_last().update(k, (s[k].0, s[k].1, Some(at))));
        assert(t.last() == s.last());
    } else {
        assert(t.drop_last() == s.drop_last());
    }
}

/// What promotion does to each entry: an entry queued before keeps its
/// time, an entry that changes is queued at `now`, and an entry from `i` on
/// that stays held is not queueable in the promoted queue.
pub proof fn lemma_promoted_entries(q: QueueSpec, i: int, now: u64)
    requires
        0 <= i,
    ensures
        forall|scope: Scope| #[trigger] queued_count(promoted(q, i, now).pending, scope) >= queued_count(q.pending, scope),
        forall|k: int|
            0 <= k < q.pending.len() && q.pending[k].2 is Some ==> (#[trigger] promoted(q, i, now).pending[k]).2 == q.pending[k].2,
        forall|k: int|
            0 <= k < q.pending.len() && (#[trigger] promoted(q, i, now).pending[k]).2 != q.pending[k].2 ==> promoted(q, i, now).pending[k].2 == Some(now),
        forall|k: int|
            i <= k < q.pending.len() && (#[trigger] promoted(q, i, now).pending[k]).2 is None ==> !queueable(
                promoted(q, i, now),
                q.pending[k].1.uid,
                q.pending[k].1.gid,
            ),
    decreases q.pending.len() - i,
{
    if i < q.pending.len() {
        let e = q.pending[i];
        let next = if e.2 is None && queueable(q, e.1.uid, e.1.gid) {
            QueueSpec { pending: q.pending.update(i, (e.0, e.1, Some(now))), ..q }
        } else {
            q
        };
        lemma_promoted_entries(next, i + 1, now);
        lemma_promoted_keeps(next, i + 1, now);
        let f = promoted(q, i, now);
        assert(f == promoted(next, i + 1, now));
        if e.2 is None && queueable(q, e.1.uid, e.1.gid) {
            assert forall|scope: Scope| #[trigger] queued_count(f.pending, scope) >= queued_count(q.pending, scope) by {
                lemma_queued_count_grows(q.pending, i, now, scope);
            }
        }
        assert forall|k: int|
            i <= k < q.pending.len() && (#[trigger] f.pending[k]).2 is None implies !queueable(f, q.pending[k].1.uid, q.pending[k].1.gid) by {
            if k == i {
                assert(next.pending[i].2 == e.2 || next.pending[i].2 == Some(now));
                if e.2 is None && !queueable(q, e.1.uid, e.1.gid) {
                    assert(next == q);
                    let u = Scope::User(e.1.uid);
                    let gr = Scope::Group(e.1.gid);
                    assert(queued_count(f.pending, Scope::All) >= queued_count(q.pending, Scope::All));
                    assert(queued_count(f.pending, u) >= queued_count(q.pending, u));
                    assert(queued_count(f.pending, gr) >= queued_count(q.pending, gr));
                }
            } else {
                assert(next.pending[k] == q.pending[k]);
            }
        }
        assert forall|k: int|
            0 <= k < q.pending.len() && q.pending[k].2 is Some implies (#[trigger] f.pending[k]).2 == q.pending[k].2 by {
            if k != i {
                assert(next.pending[k] == q.pending[k]);
            }
        }
        assert forall|k: int|
            0 <= k < q.pending.len() && (#[trigger] f.pending[k]).2 != q.pending[k].2 implies f.pending[k].2 == Some(now) by {
            if k != i {
                assert(next.pending[k] == q.pending[k]);
            }
        }
    }
}

fn find_entry(s: &Vec<(String, JobConfiguration, Option<u64>)>, id: &String) -> (r: Option<usize>)
    ensures
        r matches Some(i) ==> i < s@.len() && s@[i as int].0@ == id@ && forall|j: int|
            0 <= j < i ==> (#[trigger] s@[j]).0@ != id@,
        r is None ==> forall|j: int| 0 <= j < s@.len() ==> (#[trigger] s@[j]).0@ != id@,
{
    let mut i: usize = 0;
    while i < s.len()
        invariant
            0 <= i <= s.len(),
            forall|j: int| 0 <= j < i ==> (#[trigger] s@[j]).0@ != id@,
        decreases s.len() - i,
    {
        if s[i].0 == *id {
            return Some(i);
        }
        i = i + 1;
    }
    None
}

fn find_running(s: &Vec<(String, JobConfiguration)>, id: &String) -> (r: bool)
    ensures
        r == exists|j: int| 0 <= j < s@.len() && (#[trigger] s@[j]).0@ == id@,
{
    let mut i: usize = 0;
    while i < s.len()
        invariant
            0 <= i <= s.len(),
            forall|j: int| 0 <= j < i ==> (#[trigger] s@[j]).0@ != id@,
        decreases s.len() - i,
    {
        if s[i].0 == *id {
            return true;
        }
        i = i + 1;
    }
    false
}

fn contains_string(v: &Vec<String>, s: &String) -> (r: bool)
    ensures
        r == v@.map_values(|x: String| x@).to_set().contains(s@),
{
    let ghost t = v@.map_values(|x: String| x@);
    let mut i: usize = 0;
    while i < v.len()
        invariant
            0 <= i <= v.len(),
            t == v@.map_values(|x: String| x@),
            forall|j: int| 0 <= j < i ==> (#[trigger] v@[j])@ != s@,
        decreases v.len() - i,
    {
        if v[i] == *s {
            assert(t[i as int] == s@);
            return true;
        }
        i = i + 1;
    }
    proof {
        if t.to_set().contains(s@) {
            let j = choose|j: int| 0 <= j < t.len() && t[j] == s@;
            assert(v@[j]@ == s@);
        }
    }
    false
}

impl Queue {
    /// An empty queue with the given policy.
    pub fn new(configuration: &QueueConfiguration) -> (r: Self)
        ensures
            r@ == (QueueSpec {
                config: configuration@,
                pending: Seq::empty(),
                running: Seq::empty(),
            }),
            queue_wf(r@),
    {
        let q = Queue { configuration: configuration.clone(), jobs: Vec::new(), running: Vec::new() };
        assert(q@.pending =~= Seq::<EntrySpec>::empty());
        assert(q@.running =~= Seq::<RunningSpec>::empty());
        q
    }

    /// The number of queued (not held) entries in scope.
    pub fn count_queued(&self, scope: Scope) -> (r: usize)
        ensures
            r == queued_count(self@.pending, scope),
    {
        let ghost p = self@.pending;
        let mut n: usize = 0;
        let mut i: usize = 0;
        while i < self.jobs.len()
            invariant
                0 <= i <= self.jobs.len(),
                p == self@.pending,
                n == queued_count(p.take(i as int), scope),
                n <= i,
            decreases self.jobs.len() - i,
        {
            assert(p.take(i + 1).drop_last() == p.take(i as int));
            let hit = match scope {
                Scope::All => true,
                Scope::User(uid) => self.jobs[i].1.uid == uid,
                Scope::Group(gid) => self.jobs[i].1.gid == gid,
            };
            if self.jobs[i].2.is_some() && hit {
                n = n + 1;
            }
            i = i + 1;
        }
        assert(p.take(i as int) == p);
        n
    }

    /// The number of running jobs in scope.
    pub fn count_running(&self, scope: Scope) -> (r: usize)
        ensures
            r == running_count(self@.running, scope),
    {
        let ghost p = self@.running;
        let mut n: usize = 0;
        let mut i: usize = 0;
        while i < self.running.len()
            invariant
                0 <= i <= self.running.len(),
                p == self@.running,
                n == running_count(p.take(i as int), scope),
                n <= i,
            decreases self.running.len() - i,
        {
            assert(p.take(i + 1).drop_last() == p.take(i as int));
            let hit = match scope {
                Scope::All => true,
                Scope::User(uid) => self.running[i].1.uid == uid,
                Scope::Group(gid) => self.running[i].1.gid == gid,
            };
            if hit {
                n = n + 1;
            }
            i = i + 1;
        }
        assert(p.take(i as int) == p);
        n
    }

    fn limit_for(&self, scope: Scope) -> (r: Option<AmountLimit>)
        ensures
            r == limit_for(self@.config, scope),
    {
        match scope {
            Scope::All => self.configuration.global_limit,
            Scope::User(_) => self.configuration.user_limit,
            Scope::Group(_) => self.configuration.group_limit,
        }
    }

    fn queue_full_in(&self, scope: Scope) -> (r: bool)
        ensures
            r == queue_full_in(self@, scope),
    {
        match self.limit_for(scope) {
            Some(l) => self.count_queued(scope) >= l.max_queue,
            None => false,
        }
    }

    fn running_full_in(&self, scope: Scope) -> (r: bool)
        ensures
            r == running_full_in(self@, scope),
    {
        match self.limit_for(scope) {
            Some(l) => self.count_running(scope) >= l.max_running,
            None => false,
        }
    }

    /// Whether a held entry of this owner and group may be queued now.
    pub fn queueable(&self, uid: u32, gid: u32) -> (r: bool)
        ensures
            r == queueable(self@, uid, gid),
    {
        !self.queue_full_in(Scope::All) && !self.queue_full_in(Scope::User(uid))
            && !self.queue_full_in(Scope::Group(gid))
    }

    fn ranked(&self, now: u64, fair: bool) -> (r: Vec<(String, JobConfiguration, u64, i128)>)
        ensures
            candidate_views(r@) == candidates(self@, self@.pending, now, fair),
    {
        let ghost p = self@.pending;
        let mut out: Vec<(String, JobConfiguration, u64, i128)> = Vec::new();
        let mut i: usize = 0;
        while i < self.jobs.len()
            invariant
                0 <= i <= self.jobs.len(),
                p == self@.pending,
                candidate_views(out@) == candidates(self@, p.take(i as int), now, fair),
            decreases self.jobs.len() - i,
        {
            assert(p.take(i + 1).drop_last() == p.take(i as int));
            assert(p.take(i + 1).last() == p[i as int]);
            match self.jobs[i].2 {
                Some(at) => {
                    let job = &self.jobs[i].1;
                    let allowed = !fair || (!self.running_full_in(Scope::All)
                        && !self.running_full_in(Scope::User(job.uid))
                        && !self.running_full_in(Scope::Group(job.gid)));
                    if allowed {
                        let w: u64 = if now >= at {
                            now - at
                        } else {
                            0
                        };
                        let prio = self.configuration.priority(&job.requirement, w);
                        let c = (self.jobs[i].0.clone(), job.clone(), at, prio);
                        let ghost before = out@;
                        out.push(c);
                        assert(candidate_views(out@) =~= candidate_views(before).push(
                            (c.0@, c.1@, c.2, c.3 as int),
                        ));
                    }
                },
                None => {},
            }
            i = i + 1;
        }
        assert(p.take(i as int) == p);
        out
    }

    /// Every queued entry, in order, with its id, job, second queued and
    /// priority at `now`.
    pub fn jobs_in_queue(&self, now: u64) -> (r: Vec<(String, JobConfiguration, u64, i128)>)
        ensures
            candidate_views(r@) == candidates(self@, self@.pending, now, false),
    {
        self.ranked(now, false)
    }

    /// The queued entries whose owner and group are below their running caps,
    /// in order, with their priority at `now`.
    pub fn jobs_submitable(&self, now: u64) -> (r: Vec<(String, JobConfiguration, u64, i128)>)
        ensures
            candidate_views(r@) == candidates(self@, self@.pending, now, true),
    {
        self.ranked(now, true)
    }

    /// Admits `job` under the id `task_id`: where the policy admits it and the
    /// id is not in use, the job, with the queue's properties merged into its
    /// own, is appended as a held entry.
    pub fn add_with_id(&mut self, job: &JobConfiguration, task_id: String) -> (r: Result<String, ()>)
        requires
            queue_wf(old(self)@),
        ensures
            queue_wf(final(self)@),
            r is Ok <==> admits(old(self)@.config, job@) && !id_in_use(old(self)@, task_id@),
            r matches Ok(id) ==> id@ == task_id@ && final(self)@ == (QueueSpec {
                pending: old(self)@.pending.push(
                    (task_id@, merged_job(job@, old(self)@.config.properties), None),
                ),
                ..old(self)@
            }),
            r is Err ==> final(self)@ == old(self)@,
    {
        if !self.configuration.can_be_added(job) {
            return Err(());
        }
        let clash = match find_entry(&self.jobs, &task_id) {
            Some(i) => {
                assert(self@.pending[i as int].0 == task_id@);
                true
            },
            None => {
                let found = find_running(&self.running, &task_id);
                proof {
                    if found {
                        let j = choose|j: int| 0 <= j < self.running@.len() && (#[trigger] self.running@[j]).0@ == task_id@;
                        assert(self@.running[j].0 == task_id@);
                    }
                }
                found
            },
        };
        proof {
            if id_in_use(self@, task_id@) {
                if exists|i: int| 0 <= i < self@.pending.len() && (#[trigger] self@.pending[i]).0
                    == task_id@ {
                    let i = choose|i: int| 0 <= i < self@.pending.len() && (#[trigger] self@.pending[i]).0
                        == task_id@;
                    assert(self.jobs@[i].0@ == task_id@);
                } else {
                    let j = choose|j: int| 0 <= j < self@.running.len() && (#[trigger] self@.running[j]).0
                        == task_id@;
                    assert(self.running@[j].0@ == task_id@);
                }
            }
        }
        if clash {
            return Err(());
        }
        let mut merged = job.clone();
        merged.requirement.properties.extend(&self.configuration.properties);
        let ghost before = self.jobs@;
        self.jobs.push((task_id.clone(), merged, None));
        assert(entry_views(self.jobs@) =~= entry_views(before).push(
            (task_id@, merged_job(job@, self@.config.properties), None),
        ));
        Ok(task_id)
    }

    /// Admits `job` under a fresh random id, as `add_with_id` does; refused
    /// also in the unlikely case that the drawn id is already in use.
    pub fn add_to_queue(&mut self, job: &JobConfiguration) -> (r: Result<String, ()>)
        requires
            queue_wf(old(self)@),
        ensures
            queue_wf(final(self)@),
            !admits(old(self)@.config, job@) ==> r is Err,
            admits(old(self)@.config, job@) && clear_of_drawn_ids(old(self)@) ==> r is Ok,
            r matches Ok(id) ==> !id_in_use(old(self)@, id@) && final(self)@ == (QueueSpec {
                pending: old(self)@.pending.push(
                    (id@, merged_job(job@, old(self)@.config.properties), None),
                ),
                ..old(self)@
            }),
            r is Err ==> final(self)@ == old(self)@,
    {
        let id = fresh_task_id();
        self.add_with_id(job, id)
    }

    /// Removes the pending entry with id `task_id`; `None` where there is none.
    pub fn remove_from_queue(&mut self, task_id: &str) -> (r: Option<()>)
        requires
            queue_wf(old(self)@),
        ensures
            queue_wf(final(self)@),
            r is Some <==> exists|i: int|
                0 <= i < old(self)@.pending.len() && (#[trigger] old(self)@.pending[i]).0 == task_id@,
            r is Some ==> exists|i: int|
                0 <= i < old(self)@.pending.len() && (#[trigger] old(self)@.pending[i]).0 == task_id@
                    && final(self)@ == (QueueSpec { pending: old(self)@.pending.remove(i), ..old(self)@ }),
            r is None ==> final(self)@ == old(self)@,
    {
        let id = task_id.to_owned();
        match find_entry(&self.jobs, &id) {
            Some(i) => {
                let ghost before = self.jobs@;
                self.jobs.remove(i);
                assert(entry_views(self.jobs@) =~= entry_views(before).remove(i as int));
                assert(entry_views(before)[i as int].0 == task_id@);
                proof {
                    lemma_wf_remove(old(self)@, i as int);
                }
                Some(())
            },
            None => {
                proof {
                    if exists|i: int|
                        0 <= i < self@.pending.len() && (#[trigger] self@.pending[i]).0 == task_id@ {
                        let i = choose|i: int|
                            0 <= i < self@.pending.len() && (#[trigger] self@.pending[i]).0 == task_id@;
                        assert(self.jobs@[i].0@ == task_id@);
                    }
                }
                None
            },
        }
    }

    /// Records `job` as running under `task_id`, replacing an earlier record
    /// of that id.
    pub fn add_to_running(&mut self, task_id: &str, job: &JobConfiguration)
        ensures
            final(self)@ == (QueueSpec {
                running: without_id(old(self)@.running, task_id@).push((task_id@, job@)),
                ..old(self)@
            }),
    {
        let id = task_id.to_owned();
        let ghost r = self@.running;
        let mut out: Vec<(String, JobConfiguration)> = Vec::new();
        let mut i: usize = 0;
        while i < self.running.len()
            invariant
                0 <= i <= self.running.len(),
                r == self@.running,
                id@ == task_id@,
                running_views(out@) == without_id(r.take(i as int), task_id@),
            decreases self.running.len() - i,
        {
            assert(r.take(i + 1).drop_last() == r.take(i as int));
            if self.running[i].0 != id {
                let e = (self.running[i].0.clone(), self.running[i].1.clone());
                let ghost before = out@;
                out.push(e);
                assert(running_views(out@) =~= running_views(before).push((e.0@, e.1@)));
            }
            i = i + 1;
        }
        assert(r.take(i as int) == r);
        let ghost before = out@;
        out.push((id, job.clone()));
        assert(running_views(out@) =~= running_views(before).push((task_id@, job@)));
        self.running = out;
    }

    /// Drops the running jobs whose ids are not in `running_ids`.
    pub fn refresh_running(&mut self, running_ids: &Vec<String>)
        ensures
            final(self)@ == (QueueSpec {
                running: keep_ids(old(self)@.running, running_ids@.map_values(|x: String| x@).to_set()),
                ..old(self)@
            }),
    {
        let ghost ids = running_ids@.map_values(|x: String| x@).to_set();
        let ghost r = self@.running;
        let mut out: Vec<(String, JobConfiguration)> = Vec::new();
        let mut i: usize = 0;
        while i < self.running.len()
            invariant
                0 <= i <= self.running.len(),
                r == self@.running,
                ids == running_ids@.map_values(|x: String| x@).to_set(),
                running_views(out@) == keep_ids(r.take(i as int), ids),
            decreases self.running.len() - i,
        {
            assert(r.take(i + 1).drop_last() == r.take(i as int));
            if contains_string(running_ids, &self.running[i].0) {
                let e = (self.running[i].0.clone(), self.running[i].1.clone());
                let ghost before = out@;
                out.push(e);
                assert(running_views(out@) =~= running_views(before).push((e.0@, e.1@)));
            }
            i = i + 1;
        }
        assert(r.take(i as int) == r);
        self.running = out;
    }

    /// Queues held entries at `now`, in order, while their owner and group
    /// stay within the queue limits.
    pub fn refresh_jobs_at(&mut self, now: u64)
        ensures
            final(self)@ == promoted(old(self)@, 0, now),
            final(self)@.config == old(self)@.config,
            final(self)@.running == old(self)@.running,
            final(self)@.pending.len() == old(self)@.pending.len(),
            forall|k: int|
                0 <= k < old(self)@.pending.len() ==> (#[trigger] final(self)@.pending[k]).0
                    == old(self)@.pending[k].0 && final(self)@.pending[k].1 == old(self)@.pending[k].1,
            forall|k: int|
                0 <= k < old(self)@.pending.len() && old(self)@.pending[k].2 is Some
                    ==> (#[trigger] final(self)@.pending[k]).2 == old(self)@.pending[k].2,
            forall|k: int|
                0 <= k < old(self)@.pending.len() && (#[trigger] final(self)@.pending[k]).2
                    != old(self)@.pending[k].2 ==> final(self)@.pending[k].2 == Some(now),
            forall|k: int|
                0 <= k < old(self)@.pending.len() && (#[trigger] final(self)@.pending[k]).2 is None
                    ==> !queueable(final(self)@, final(self)@.pending[k].1.uid, final(self)@.pending[k].1.gid),
    {
        proof {
            lemma_promoted_keeps(old(self)@, 0, now);
            lemma_promoted_entries(old(self)@, 0, now);
        }
        let mut i: usize = 0;
        while i < self.jobs.len()
            invariant
                0 <= i <= self.jobs.len(),
                promoted(self@, i as int, now) == promoted(old(self)@, 0, now),
            decreases self.jobs.len() - i,
        {
            let ghost q = self@;
            if self.jobs[i].2.is_none() && self.queueable(self.jobs[i].1.uid, self.jobs[i].1.gid) {
                let id = self.jobs[i].0.clone();
                let job = self.jobs[i].1.clone();
                let ghost before = self.jobs@;
                self.jobs.set(i, (id, job, Some(now)));
                assert(self@.pending =~= q.pending.update(i as int, (q.pending[i as int].0, q.pending[i as int].1, Some(now))));
            }
            i = i + 1;
        }
        proof {
            assert(promoted(self@, i as int, now) == self@);
        }
    }

    /// Queues held entries now, as `refresh_jobs_at` does with the clock's
    /// current second.
    pub fn refresh_jobs(&mut self)
        ensures
            exists|now: u64| #[trigger] promoted(old(self)@, 0, now) == final(self)@ && forall|k: int|
                0 <= k < old(self)@.pending.len() && (#[trigger] final(self)@.pending[k]).2
                    != old(self)@.pending[k].2 ==> final(self)@.pending[k].2 == Some(now),
            final(self)@.config == old(self)@.config,
            final(self)@.running == old(self)@.running,
            final(self)@.pending.len() == old(self)@.pending.len(),
            forall|k: int|
                0 <= k < old(self)@.pending.len() ==> (#[trigger] final(self)@.pending[k]).0
                    == old(self)@.pending[k].0 && final(self)@.pending[k].1 == old(self)@.pending[k].1,
            forall|k: int|
                0 <= k < old(self)@.pending.len() && old(self)@.pending[k].2 is Some
                    ==> (#[trigger] final(self)@.pending[k]).2 == old(self)@.pending[k].2,
            forall|k: int|
                0 <= k < old(self)@.pending.len() && (#[trigger] final(self)@.pending[k]).2 is None
                    ==> !queueable(final(self)@, final(self)@.pending[k].1.uid, final(self)@.pending[k].1.gid),
    {
        let now = now_to_secs();
        self.refresh_jobs_at(now);
    }

    /// Replaces the pending entries with saved ones, in order, leaving out
    /// any whose id is running or repeats an earlier one.
    pub fn restore_pending(&mut self, saved: &Vec<(String, JobConfiguration, Option<u64>)>)
        ensures
            final(self)@ == (QueueSpec {
                pending: restored(entry_views(saved@), old(self)@.running),
                ..old(self)@
            }),
            queue_wf(final(self)@),
    {
        let ghost sv = entry_views(saved@);
        let mut out: Vec<(String, JobConfiguration, Option<u64>)> = Vec::new();
        let mut i: usize = 0;
        while i < saved.len()
            invariant
                0 <= i <= saved.len(),
                sv == entry_views(saved@),
                entry_views(out@) == restored(sv.take(i as int), self@.running),
                queue_wf(QueueSpec { pending: entry_views(out@), ..self@ }),
            decreases saved.len() - i,
        {
            assert(sv.take(i + 1).drop_last() == sv.take(i as int));
            assert(sv.take(i + 1).last() == sv[i as int]);
            let ghost r = entry_views(out@);
            let seen = find_entry(&out, &saved[i].0);
            let run = find_running(&self.running, &saved[i].0);
            proof {
                if exists|j: int| 0 <= j < r.len() && (#[trigger] r[j]).0 == sv[i as int].0 {
                    let j = choose|j: int| 0 <= j < r.len() && (#[trigger] r[j]).0 == sv[i as int].0;
                    assert(out@[j].0@ == saved@[i as int].0@);
                }
                if exists|j: int| 0 <= j < self@.running.len() && (#[trigger] self@.running[j]).0 == sv[i as int].0 {
                    let j = choose|j: int| 0 <= j < self@.running.len() && (#[trigger] self@.running[j]).0 == sv[i as int].0;
                    assert(self.running@[j].0@ == saved@[i as int].0@);
                }
            }
            proof {
                if let Some(j) = seen {
                    assert(r[j as int].0 == sv[i as int].0);
                }
                if run {
                    let j = choose|j: int| 0 <= j < self.running@.len() && (#[trigger] self.running@[j]).0@ == saved@[i as int].0@;
                    assert(self@.running[j].0 == sv[i as int].0);
                }
            }
            if seen.is_none() && !run {
                let e = (saved[i].0.clone(), saved[i].1.clone(), saved[i].2);
                let ghost old_out = out@;
                let ghost q0 = QueueSpec { pending: r, ..self@ };
                assert(queue_wf(q0));
                proof {
                    assert forall|j: int| 0 <= j < r.len() implies (#[trigger] r[j]).0 != sv[i as int].0 by {
                        assert(old_out[j].0@ != saved@[i as int].0@);
                    }
                    assert forall|j: int| 0 <= j < self@.running.len() implies (#[trigger] self@.running[j]).0 != sv[i as int].0 by {
                        assert(self.running@[j].0@ != saved@[i as int].0@);
                    }
                }
                out.push(e);
                assert(entry_views(out@) =~= r.push(sv[i as int]));
                proof {
                    let q = QueueSpec { pending: entry_views(out@), ..self@ };
                    assert forall|a: int, b: int| 0 <= a < b < q.pending.len() implies (#[trigger] q.pending[a]).0 != (#[trigger] q.pending[b]).0 by {
                        if b == r.len() {
                            assert(old_out[a].0@ != saved@[i as int].0@);
                            assert(q.pending[a] == r[a]);
                            assert(q.pending[b].0 == saved@[i as int].0@);
                        } else {
                            assert(q.pending[a] == r[a]);
                            assert(q.pending[b] == r[b]);
                            assert(q0.pending[a].0 != q0.pending[b].0);
                        }
                    }
                    assert forall|a: int, j: int| 0 <= a < q.pending.len() && 0 <= j < q.running.len() implies (#[trigger] q.pending[a]).0 != (#[trigger] q.running[j]).0 by {
                        if a < r.len() {
                            assert(q.pending[a] == r[a]);
                            assert(q0.pending[a].0 != q0.running[j].0);
                        } else {
                            assert(self.running@[j].0@ != saved@[i as int].0@);
                            assert(q.running[j].0 == self.running@[j].0@);
                            assert(q.pending[a].0 == saved@[i as int].0@);
                        }
                    }
                }
            }
            i = i + 1;
        }
        assert(sv.take(i as int) == sv);
        self.jobs = out;
    }
}

} // verus!
