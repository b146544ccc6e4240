use job_dispatcher::jobs::{ExecutePhase, JobConfiguration, PhaseStep};
use job_dispatcher::records::{JobStatus, ProcessStatus, VertexConnect, VertexFreeApi};
use job_dispatcher::resources::{
    Countables, NodesRequirement, Properties, ResourcesProvider, ResourcesRequirement,
};
use job_dispatcher::vertex::{admit_job, cgroup_settings, current_free, jobs_of_user, VertexJobStatus};

const GIB: usize = 1 << 30;

fn job(cpus: NodesRequirement, mems: NodesRequirement, memory: usize) -> JobConfiguration {
    let mut countables = Countables::new();
    countables.set("memory", memory);
    JobConfiguration {
        name: "job".to_string(),
        uid: 1000,
        gid: 1000,
        time_limit: 2,
        stdout_file: "/tmp/out".to_string(),
        stderr_file: "/tmp/err".to_string(),
        requirement: ResourcesRequirement { cpus, mems, countables, properties: Properties::new() },
        phases: vec![ExecutePhase::Sh("sleep 10".to_string())],
    }
}

fn vertex_provider() -> ResourcesProvider {
    let mut countables = Countables::new();
    countables.set("memory", 8 * GIB);
    ResourcesProvider { cpus: vec![0, 1, 2, 3], mems: vec![0], countables, properties: Properties::new() }
}

fn selection(n: &NodesRequirement) -> Vec<usize> {
    match n {
        NodesRequirement::Select(v) => {
            let mut v = v.clone();
            v.sort();
            v
        },
        _ => panic!("expected a selection"),
    }
}

#[test]
fn vertex_admission_concretizes_nodes() {
    let p = vertex_provider();
    let free = current_free(&p, &vec![]);
    let admitted = admit_job(&free, job(NodesRequirement::Use(2), NodesRequirement::Auto, 4 * GIB)).unwrap();
    assert_eq!(selection(&admitted.requirement.cpus), vec![0, 1]);
    assert_eq!(selection(&admitted.requirement.mems), vec![0]);
    assert_eq!(admitted.requirement.countables.get("memory"), 4 * GIB);
    assert_eq!(admitted.time_limit, 2);
}

#[test]
fn vertex_free_subtracts_running_jobs() {
    let p = vertex_provider();
    let first = admit_job(&p, job(NodesRequirement::Use(2), NodesRequirement::Auto, 4 * GIB)).unwrap();
    let running = vec![VertexJobStatus::Running(first, 10)];
    let free = current_free(&p, &running);
    let mut cpus = free.cpus.clone();
    cpus.sort();
    assert_eq!(cpus, vec![2, 3]);
    assert!(free.mems.is_empty());
    assert_eq!(free.countables.get("memory"), 4 * GIB);
    assert!(admit_job(&free, job(NodesRequirement::Use(2), NodesRequirement::Auto, 4 * GIB)).is_none());
    let no_mems = admit_job(&free, job(NodesRequirement::Use(2), NodesRequirement::Use(0), 4 * GIB)).unwrap();
    assert_eq!(selection(&no_mems.requirement.cpus), vec![2, 3]);
    assert_eq!(selection(&no_mems.requirement.mems), Vec::<usize>::new());
    assert!(admit_job(&free, job(NodesRequirement::Use(2), NodesRequirement::Auto, 5 * GIB)).is_none());
    assert!(admit_job(&free, job(NodesRequirement::Use(3), NodesRequirement::Auto, GIB)).is_none());
}

#[test]
fn vertex_free_grows_back_when_jobs_end() {
    let p = vertex_provider();
    let first = admit_job(&p, job(NodesRequirement::Use(1), NodesRequirement::Auto, 3 * GIB)).unwrap();
    let second = admit_job(&p, job(NodesRequirement::Select(vec![3]), NodesRequirement::Use(0), 6 * GIB)).unwrap();
    let both = vec![VertexJobStatus::Running(first.clone(), 1), VertexJobStatus::Running(second.clone(), 1)];
    let free_both = current_free(&p, &both);
    assert_eq!(free_both.countables.get("memory"), 0);
    let ended = vec![
        VertexJobStatus::ended(first, true, 0, String::new(), 5),
        VertexJobStatus::Running(second, 1),
    ];
    let free_one = current_free(&p, &ended);
    assert_eq!(free_one.countables.get("memory"), 2 * GIB);
    let mut cpus = free_one.cpus.clone();
    cpus.sort();
    assert_eq!(cpus, vec![0, 1, 2]);
    assert!(free_both.cpus.len() < free_one.cpus.len());
}

#[test]
fn ended_status_records_outcome() {
    let j = job(NodesRequirement::Auto, NodesRequirement::Auto, 1);
    match VertexJobStatus::ended(j.clone(), false, 137, "killed".to_string(), 9) {
        VertexJobStatus::Error { status_code, error_message, exit_at, .. } => {
            assert_eq!(status_code, 137);
            assert_eq!(error_message, "killed");
            assert_eq!(exit_at, 9);
        },
        _ => panic!("expected an error status"),
    }
    let done = VertexJobStatus::ended(j, true, 0, String::new(), 9);
    assert!(matches!(done, VertexJobStatus::Finished(_, 9)));
    assert!(!done.is_running());
}

#[test]
fn jobs_listed_per_user() {
    let j = job(NodesRequirement::Auto, NodesRequirement::Auto, 1);
    let records = vec![
        (("alice".to_string(), "t1".to_string()), VertexJobStatus::Running(j.clone(), 1)),
        (("bob".to_string(), "t2".to_string()), VertexJobStatus::Running(j.clone(), 1)),
        (("alice".to_string(), "t3".to_string()), VertexJobStatus::Finished(j, 2)),
    ];
    let mine = jobs_of_user(&records, "alice");
    assert_eq!(mine.len(), 2);
    assert_eq!(mine[0].0, "t1");
    assert_eq!(mine[1].0, "t3");
    assert!(mine[0].1.is_running());
    assert!(jobs_of_user(&records, "carol").is_empty());
}

#[test]
fn cgroup_settings_from_job() {
    let j = job(NodesRequirement::Select(vec![3, 1]), NodesRequirement::Select(vec![0]), 1024);
    let (cpus, mems, memory) = cgroup_settings(&j).unwrap();
    assert_eq!(cpus, "1,3");
    assert_eq!(mems, "0");
    assert_eq!(memory, 1024);
    assert!(cgroup_settings(&job(NodesRequirement::Use(1), NodesRequirement::Select(vec![0]), 1)).is_none());
}

#[test]
fn reports_and_connections() {
    let free = VertexFreeApi::new(&vec![1, 2], &Countables::new());
    assert_eq!(free.cpus, vec![1, 2]);
    let status = JobStatus {
        task_id: "t".to_string(),
        basic_user: "alice".to_string(),
        configuration: job(NodesRequirement::Auto, NodesRequirement::Auto, 1),
        process: ProcessStatus::RUNNING(0, vec![0]),
    };
    assert!(status.is_running());
    match ProcessStatus::finish("done") {
        ProcessStatus::FINISHED(at, text) => {
            assert_eq!(text, "done");
            assert!(at > 0);
        },
        _ => panic!("expected a finished process"),
    }
    let c = VertexConnect::new("http://localhost:9500", "alice", "secret");
    assert_eq!(c.url, "http://localhost:9500");
    assert_eq!(c.username, "alice");
    assert_eq!(c.password, "secret");
}

#[test]
fn set_cpuset_replaces_nodes_only() {
    let j = job(NodesRequirement::Use(2), NodesRequirement::Auto, 7);
    let k = j.set_cpuset(NodesRequirement::Select(vec![5]), NodesRequirement::Select(vec![1]));
    assert_eq!(selection(&k.requirement.cpus), vec![5]);
    assert_eq!(selection(&k.requirement.mems), vec![1]);
    assert_eq!(k.requirement.countables.get("memory"), 7);
    assert_eq!(k.name, "job");
}

#[test]
fn executor_steps_stop_at_failure() {
    let mut j = job(NodesRequirement::Auto, NodesRequirement::Auto, 1);
    j.phases.push(ExecutePhase::Run(vec!["true".to_string()]));
    assert!(matches!(j.next_phase(0, true), PhaseStep::Run(0)));
    assert!(matches!(j.next_phase(1, true), PhaseStep::Run(1)));
    assert!(matches!(j.next_phase(2, true), PhaseStep::Succeeded));
    assert!(matches!(j.next_phase(1, false), PhaseStep::Failed));
}
