use job_dispatcher::admin::{handle_request, ClientRequest, DispatcherFailReasons, DispatcherResponse};
use job_dispatcher::control::{TickAction, TickEvent, TickPhase, VertexTick};
use job_dispatcher::group::QueueGroup;
use job_dispatcher::jobs::{ExecutePhase, JobConfiguration};
use job_dispatcher::queue::{AmountLimit, IdControl, PriorityRule, Queue, QueueConfiguration, Scope};
use job_dispatcher::resources::{
    Countables, NodesRequirement, Properties, ResourcesProvider, ResourcesRequirement,
};

fn job(uid: u32, gid: u32, memory: usize) -> JobConfiguration {
    let mut countables = Countables::new();
    countables.set("memory", memory);
    JobConfiguration {
        name: "job".to_string(),
        uid,
        gid,
        time_limit: 0,
        stdout_file: "/tmp/out".to_string(),
        stderr_file: "/tmp/err".to_string(),
        requirement: ResourcesRequirement {
            cpus: NodesRequirement::Use(1),
            mems: NodesRequirement::Auto,
            countables,
            properties: Properties::new(),
        },
        phases: vec![ExecutePhase::Sh("true".to_string())],
    }
}

fn config(rules: Vec<PriorityRule>) -> QueueConfiguration {
    QueueConfiguration {
        priority_rule: rules,
        users: IdControl::Allow(vec![1000]),
        groups: IdControl::Allow(vec![1000]),
        properties: Properties::new(),
        global_limit: None,
        user_limit: None,
        group_limit: None,
    }
}

fn provider(memory: usize) -> ResourcesProvider {
    let mut countables = Countables::new();
    countables.set("memory", memory);
    ResourcesProvider { cpus: vec![0, 1, 2, 3], mems: vec![0], countables, properties: Properties::new() }
}

fn group_of(q: Queue) -> QueueGroup {
    QueueGroup::new(vec![("main".to_string(), q)])
}

#[test]
fn admission_allow_list() {
    let mut g = group_of(Queue::new(&config(vec![])));
    let ok = handle_request(
        &mut g,
        ClientRequest::SubmitJob("main".to_string(), job(1000, 1000, 1)),
        Some((1000, 1000)),
    );
    match ok {
        DispatcherResponse::SubmitSuccess(id) => assert_eq!(id.len(), 36),
        _ => panic!("expected success"),
    }
    let refused = handle_request(
        &mut g,
        ClientRequest::SubmitJob("main".to_string(), job(1001, 1000, 1)),
        Some((1001, 1000)),
    );
    assert!(matches!(refused, DispatcherResponse::SubmitFailed));
    assert_eq!(g.0[0].1.jobs.len(), 1);
}

#[test]
fn submit_to_missing_queue_fails() {
    let mut g = group_of(Queue::new(&config(vec![])));
    assert_eq!(g.add_to_queue("other", &job(1000, 1000, 1)), Err(()));
}

#[test]
fn non_root_submits_as_itself() {
    let mut g = group_of(Queue::new(&config(vec![])));
    let r = handle_request(
        &mut g,
        ClientRequest::SubmitJob("main".to_string(), job(0, 0, 1)),
        Some((1000, 1000)),
    );
    assert!(matches!(r, DispatcherResponse::SubmitSuccess(_)));
    assert_eq!(g.0[0].1.jobs[0].1.uid, 1000);
    assert_eq!(g.0[0].1.jobs[0].1.gid, 1000);
    let as_root = handle_request(
        &mut g,
        ClientRequest::SubmitJob("main".to_string(), job(1001, 1000, 1)),
        Some((0, 0)),
    );
    assert!(matches!(as_root, DispatcherResponse::SubmitFailed));
}

#[test]
fn missing_credentials_is_invalid() {
    let mut g = group_of(Queue::new(&config(vec![])));
    let r = handle_request(&mut g, ClientRequest::Status, None);
    assert!(matches!(r, DispatcherResponse::InvalidRequest));
    let s = handle_request(&mut g, ClientRequest::Status, Some((1000, 1000)));
    assert!(matches!(s, DispatcherResponse::Status));
}

#[test]
fn delete_not_found_and_denied() {
    let mut g = group_of(Queue::new(&config(vec![])));
    let id = g.add_to_queue("main", &job(1000, 1000, 1)).unwrap();
    let missing = handle_request(&mut g, ClientRequest::DeleteJob("nope".to_string()), Some((1000, 1000)));
    assert!(matches!(missing, DispatcherResponse::DeleteFailed(DispatcherFailReasons::NotFound)));
    let denied = handle_request(&mut g, ClientRequest::DeleteJob(id.clone()), Some((1001, 1001)));
    assert!(matches!(denied, DispatcherResponse::DeleteFailed(DispatcherFailReasons::PermissionDenied)));
    let ok = handle_request(&mut g, ClientRequest::DeleteJob(id.clone()), Some((0, 0)));
    assert!(matches!(ok, DispatcherResponse::DeleteSuccess));
    assert_eq!(g.0[0].1.jobs.len(), 0);
}

#[test]
fn queue_properties_merge_and_conflict() {
    let mut c = config(vec![]);
    c.properties.set("zone", "eu");
    let mut q = Queue::new(&c);
    let mut tagged = job(1000, 1000, 1);
    tagged.requirement.properties.set("arch", "x86");
    q.add_to_queue(&tagged).unwrap();
    assert!(q.jobs[0].1.requirement.properties.matches("zone", "eu"));
    assert!(q.jobs[0].1.requirement.properties.matches("arch", "x86"));
    let mut clash = job(1000, 1000, 1);
    clash.requirement.properties.set("zone", "us");
    assert_eq!(q.add_to_queue(&clash), Err(()));
}

#[test]
fn add_with_taken_id_is_refused() {
    let mut q = Queue::new(&config(vec![]));
    assert_eq!(q.add_with_id(&job(1000, 1000, 1), "a".to_string()), Ok("a".to_string()));
    assert_eq!(q.add_with_id(&job(1000, 1000, 1), "a".to_string()), Err(()));
    q.add_to_running("b", &job(1000, 1000, 1));
    assert_eq!(q.add_with_id(&job(1000, 1000, 1), "b".to_string()), Err(()));
}

#[test]
fn older_entry_ranks_higher() {
    let mut q = Queue::new(&config(vec![PriorityRule::WaitingRule(1_000_000)]));
    q.add_with_id(&job(1000, 1000, 1), "old".to_string()).unwrap();
    q.refresh_jobs_at(100);
    q.add_with_id(&job(1000, 1000, 1), "new".to_string()).unwrap();
    q.refresh_jobs_at(110);
    let ranked = q.jobs_in_queue(120);
    assert_eq!(ranked.len(), 2);
    assert_eq!(ranked[0].0, "old");
    assert_eq!(ranked[0].3, 20_000_000);
    assert_eq!(ranked[1].3, 10_000_000);
    let g = group_of(q);
    let (id, _, queue) = g.try_take_job_at(&provider(8), false, 120).unwrap();
    assert_eq!(id, "old");
    assert_eq!(queue, "main");
}

#[test]
fn priority_terms_exact() {
    let mut c = config(vec![
        PriorityRule::CountableRule("memory".to_string(), 5_000_000, 2),
        PriorityRule::CpusetRule(3, 5, 7),
        PriorityRule::PropertyRule("arch".to_string(), "x86".to_string(), 100),
        PriorityRule::PropertyRule("arch".to_string(), "arm".to_string(), 1000),
        PriorityRule::WaitingRule(-1),
    ]);
    let mut j = job(1000, 1000, 4);
    j.requirement.cpus = NodesRequirement::Select(vec![0, 1, 2, 2]);
    j.requirement.properties.set("arch", "x86");
    assert_eq!(c.priority(&j.requirement, 10), 5_000_000 + 8 + 9 + 100 - 10);
    j.requirement.cpus = NodesRequirement::Use(4);
    assert_eq!(c.priority(&j.requirement, 0), 5_000_000 + 8 + 20 + 100);
    j.requirement.cpus = NodesRequirement::Auto;
    assert_eq!(c.priority(&j.requirement, 0), 5_000_000 + 8 + 7 + 100);
    c.priority_rule = vec![
        PriorityRule::CountableRule("memory".to_string(), i64::MAX, i64::MAX),
        PriorityRule::CountableRule("memory".to_string(), i64::MAX, i64::MAX),
    ];
    j.requirement.countables.set("memory", usize::MAX);
    assert_eq!(c.priority(&j.requirement, 0), i128::MAX);
}

#[test]
fn priority_depends_on_wait_only_through_elapsed() {
    let c = config(vec![PriorityRule::WaitingRule(3)]);
    let j = job(1000, 1000, 1);
    assert_eq!(c.priority(&j.requirement, 7), c.priority(&j.requirement, 7));
    assert_eq!(c.priority(&j.requirement, 7), 21);
}

#[test]
fn commit_after_delete_returns_none() {
    let mut q = Queue::new(&config(vec![]));
    q.add_with_id(&job(1000, 1000, 1), "e".to_string()).unwrap();
    q.refresh_jobs_at(5);
    let mut g = group_of(q);
    let (id, claimed, queue) = g.try_take_job_at(&provider(8), false, 6).unwrap();
    assert_eq!(g.0[0].1.jobs.len(), 1);
    let del = handle_request(&mut g, ClientRequest::DeleteJob(id.clone()), Some((1000, 1000)));
    assert!(matches!(del, DispatcherResponse::DeleteSuccess));
    assert_eq!(g.truly_take_job_at(&queue, &id, "remote-1", &claimed, 7), None);
    assert_eq!(g.0[0].1.running.len(), 0);
    assert!(g.try_take_job_at(&provider(8), false, 8).is_none());
}

#[test]
fn commit_moves_one_entry() {
    let mut q = Queue::new(&config(vec![]));
    q.add_with_id(&job(1000, 1000, 1), "a".to_string()).unwrap();
    q.add_with_id(&job(1000, 1000, 1), "b".to_string()).unwrap();
    q.refresh_jobs_at(5);
    let mut g = group_of(q);
    let (id, claimed, queue) = g.try_take_job_at(&provider(8), false, 6).unwrap();
    assert_eq!(id, "a");
    assert_eq!(g.truly_take_job_at(&queue, &id, "remote-1", &claimed, 7), Some(()));
    assert_eq!(g.0[0].1.jobs.len(), 1);
    assert_eq!(g.0[0].1.jobs[0].0, "b");
    assert_eq!(g.0[0].1.running.len(), 1);
    assert_eq!(g.0[0].1.running[0].0, "remote-1");
    assert_eq!(g.truly_take_job_at("main", "b", "b", &claimed, 8), Some(()));
    assert_eq!(g.truly_take_job_at("main", "gone", "x", &claimed, 9), None);
}

#[test]
fn commit_refuses_clashing_received_id() {
    let mut q = Queue::new(&config(vec![]));
    q.add_with_id(&job(1000, 1000, 1), "a".to_string()).unwrap();
    q.add_with_id(&job(1000, 1000, 1), "b".to_string()).unwrap();
    let mut g = group_of(q);
    let j = job(1000, 1000, 1);
    assert_eq!(g.truly_take_job_at("main", "a", "b", &j, 1), None);
    assert_eq!(g.0[0].1.jobs.len(), 2);
    assert_eq!(g.0[0].1.running.len(), 0);
}

#[test]
fn claim_skips_what_provider_refuses() {
    let mut q = Queue::new(&config(vec![PriorityRule::CountableRule("memory".to_string(), 0, 1)]));
    q.add_with_id(&job(1000, 1000, 16), "big".to_string()).unwrap();
    q.add_with_id(&job(1000, 1000, 2), "small".to_string()).unwrap();
    q.refresh_jobs_at(1);
    let g = group_of(q);
    assert_eq!(g.try_take_job_at(&provider(32), false, 2).unwrap().0, "big");
    assert_eq!(g.try_take_job_at(&provider(8), false, 2).unwrap().0, "small");
    assert!(g.try_take_job_at(&provider(1), false, 2).is_none());
    assert!(g.try_take_job_at(&provider(8), true, 2).is_some());
}

#[test]
fn held_entries_wait_for_queue_caps() {
    let mut c = config(vec![]);
    c.user_limit = Some(AmountLimit { max_running: 10, max_queue: 1 });
    let mut q = Queue::new(&c);
    q.add_with_id(&job(1000, 1000, 1), "a".to_string()).unwrap();
    q.add_with_id(&job(1000, 1000, 1), "b".to_string()).unwrap();
    q.refresh_jobs_at(3);
    assert_eq!(q.jobs[0].2, Some(3));
    assert_eq!(q.jobs[1].2, None);
    assert_eq!(q.count_queued(Scope::All), 1);
    assert!(!q.queueable(1000, 1000));
    assert!(q.queueable(1001, 1000));
    assert_eq!(q.remove_from_queue("a"), Some(()));
    assert_eq!(q.remove_from_queue("a"), None);
    q.refresh_jobs_at(4);
    assert_eq!(q.jobs[0].2, Some(4));
}

#[test]
fn reconciliation_releases_running_slot() {
    let mut c = config(vec![]);
    c.global_limit = Some(AmountLimit { max_running: 1, max_queue: 10 });
    let mut q = Queue::new(&c);
    q.add_to_running("t", &job(1000, 1000, 1));
    q.add_to_running("u", &job(1000, 1000, 1));
    q.add_with_id(&job(1000, 1000, 1), "e".to_string()).unwrap();
    q.refresh_jobs_at(1);
    assert_eq!(q.count_running(Scope::All), 2);
    assert_eq!(q.jobs_submitable(2).len(), 0);
    let mut g = group_of(q);
    g.refresh_running(&vec!["u".to_string()]);
    assert_eq!(g.0[0].1.running.len(), 1);
    assert_eq!(g.0[0].1.running[0].0, "u");
    g.refresh_running(&vec![]);
    assert_eq!(g.0[0].1.running.len(), 0);
    assert_eq!(g.0[0].1.jobs_submitable(2).len(), 1);
}

#[test]
fn control_tick_runs_a_round() {
    let mut q = Queue::new(&config(vec![]));
    q.add_with_id(&job(1000, 1000, 1), "e".to_string()).unwrap();
    q.refresh_jobs_at(1);
    let mut g = group_of(q);
    let (mut tick, first) = VertexTick::begin(false);
    assert!(matches!(first, TickAction::RequestFree));
    let a = tick.step(&mut g, TickEvent::Free(provider(8)), 2);
    match a {
        TickAction::Submit(id, _, queue) => {
            assert_eq!(id, "e");
            assert_eq!(queue, "main");
        },
        _ => panic!("expected a submission"),
    }
    let b = tick.step(&mut g, TickEvent::Submitted("remote".to_string()), 3);
    assert!(matches!(b, TickAction::RequestJobs));
    assert_eq!(tick.committed, Some(true));
    assert_eq!(g.0[0].1.running[0].0, "remote");
    let c = tick.step(&mut g, TickEvent::Jobs(vec![]), 4);
    assert!(matches!(c, TickAction::Finish));
    assert!(matches!(tick.phase, TickPhase::Done));
    assert_eq!(g.0[0].1.running.len(), 0);
}

#[test]
fn control_tick_stops_claiming_after_failed_submit() {
    let mut q = Queue::new(&config(vec![]));
    q.add_with_id(&job(1000, 1000, 1), "e".to_string()).unwrap();
    q.refresh_jobs_at(1);
    let mut g = group_of(q);
    let (mut tick, _) = VertexTick::begin(false);
    let _ = tick.step(&mut g, TickEvent::Free(provider(8)), 2);
    let b = tick.step(&mut g, TickEvent::SubmitFailed, 3);
    assert!(matches!(b, TickAction::RequestJobs));
    assert_eq!(g.0[0].1.jobs.len(), 1);
    let (mut lost, _) = VertexTick::begin(true);
    assert!(matches!(lost.step(&mut g, TickEvent::FreeFailed, 4), TickAction::Finish));
}

#[test]
fn snapshot_and_restore_pending() {
    let mut q = Queue::new(&config(vec![]));
    q.add_with_id(&job(1000, 1000, 1), "a".to_string()).unwrap();
    q.refresh_jobs_at(1);
    let g = group_of(q);
    let mut saved = g.pending_snapshot();
    assert_eq!(saved.len(), 1);
    assert_eq!(saved[0].1[0].0, "a");
    saved[0].1.push(("a".to_string(), job(1000, 1000, 1), None));
    saved.push(("retired".to_string(), vec![("z".to_string(), job(1000, 1000, 1), None)]));
    let mut fresh = group_of(Queue::new(&config(vec![])));
    fresh.restore_pending(&saved);
    assert_eq!(fresh.0.len(), 1);
    assert_eq!(fresh.0[0].1.jobs.len(), 1);
    assert_eq!(fresh.0[0].1.jobs[0].0, "a");
    assert_eq!(fresh.0[0].1.jobs[0].2, Some(1));
}

#[test]
fn clock_driven_round_trip() {
    let mut g = group_of(Queue::new(&config(vec![PriorityRule::WaitingRule(1_000_000)])));
    let id = g.add_to_queue("main", &job(1000, 1000, 1)).unwrap();
    assert_eq!(id.len(), 36);
    assert_eq!(g.0[0].1.jobs[0].2, None);
    g.0[0].1.refresh_jobs();
    let queued_at = g.0[0].1.jobs[0].2.unwrap();
    assert!(queued_at > 1_600_000_000);
    let (claimed_id, claimed, queue) = g.try_take_job(&provider(8), false).unwrap();
    assert_eq!(claimed_id, id);
    assert_eq!(g.truly_take_job(&queue, &claimed_id, "remote-7", &claimed), Some(()));
    assert_eq!(g.0[0].1.running[0].0, "remote-7");
    assert!(g.0[0].1.jobs.is_empty());
    assert!(g.try_take_job(&provider(8), false).is_none());
}

#[test]
fn handle_with_chosen_id() {
    let mut g = group_of(Queue::new(&config(vec![])));
    let r = job_dispatcher::admin::handle_request_with_id(
        &mut g,
        ClientRequest::SubmitJob("main".to_string(), job(1000, 1000, 1)),
        Some((1000, 1000)),
        "chosen".to_string(),
    );
    match r {
        DispatcherResponse::SubmitSuccess(id) => assert_eq!(id, "chosen"),
        _ => panic!("expected success"),
    }
    let again = job_dispatcher::admin::handle_request_with_id(
        &mut g,
        ClientRequest::SubmitJob("main".to_string(), job(1000, 1000, 1)),
        Some((1000, 1000)),
        "chosen".to_string(),
    );
    assert!(matches!(again, DispatcherResponse::SubmitFailed));
    assert_eq!(g.add_with_id("main", &job(1000, 1000, 1), "other".to_string()), Ok("other".to_string()));
    assert_eq!(g.add_with_id("nowhere", &job(1000, 1000, 1), "x".to_string()), Err(()));
}

#[test]
fn ids_unique_across_queues() {
    let mut g = QueueGroup::new(vec![
        ("a".to_string(), Queue::new(&config(vec![]))),
        ("b".to_string(), Queue::new(&config(vec![]))),
    ]);
    assert_eq!(g.add_with_id("a", &job(1000, 1000, 1), "x".to_string()), Ok("x".to_string()));
    assert_eq!(g.add_with_id("b", &job(1000, 1000, 1), "x".to_string()), Err(()));
    let saved = vec![("b".to_string(), vec![
        ("x".to_string(), job(1000, 1000, 1), None),
        ("y".to_string(), job(1000, 1000, 1), None),
    ])];
    g.restore_pending(&saved);
    assert_eq!(g.0[1].1.jobs.len(), 1);
    assert_eq!(g.0[1].1.jobs[0].0, "y");
    assert_eq!(g.0[0].1.jobs[0].0, "x");
}
