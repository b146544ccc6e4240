use job_dispatcher::records::{default_cpu_mems, default_port, listen_all, Nodes, Resources};
use job_dispatcher::resources::{
    Countables, NodesRequirement, Properties, ResourcesProvider, ResourcesRequirement,
};

fn countables(pairs: &[(&str, usize)]) -> Countables {
    let mut c = Countables::new();
    for (k, v) in pairs {
        c.set(k, *v);
    }
    c
}

fn properties(pairs: &[(&str, &str)]) -> Properties {
    let mut p = Properties::new();
    for (k, v) in pairs {
        p.set(k, v);
    }
    p
}

fn provider(cpus: Vec<usize>, mems: Vec<usize>, c: Countables, p: Properties) -> ResourcesProvider {
    ResourcesProvider { cpus, mems, countables: c, properties: p }
}

fn requirement(
    cpus: NodesRequirement,
    mems: NodesRequirement,
    c: Countables,
    p: Properties,
) -> ResourcesRequirement {
    ResourcesRequirement { cpus, mems, countables: c, properties: p }
}

#[test]
fn missing_countable_reads_zero() {
    let c = countables(&[("memory", 8)]);
    assert_eq!(c.get("memory"), 8);
    assert_eq!(c.get("gpu"), 0);
    assert!(c.enough("memory", 8));
    assert!(!c.enough("memory", 9));
    assert!(c.enough("gpu", 0));
}

#[test]
fn countable_set_replaces_value() {
    let mut c = countables(&[("memory", 8), ("gpu", 1)]);
    c.set("memory", 3);
    assert_eq!(c.get("memory"), 3);
    assert_eq!(c.get("gpu"), 1);
    c.remove("gpu");
    assert_eq!(c.get("gpu"), 0);
    assert_eq!(c.get_all().len(), 1);
}

#[test]
fn countables_order_uses_missing_as_zero() {
    let small = countables(&[("memory", 4)]);
    let big = countables(&[("memory", 8), ("gpu", 2)]);
    assert!(small.is_le(&big));
    assert!(!big.is_le(&small));
    let zero = countables(&[("licence", 0)]);
    assert!(zero.is_le(&Countables::new()));
}

#[test]
fn properties_order_and_conflict() {
    let a = properties(&[("arch", "x86")]);
    let b = properties(&[("arch", "x86"), ("zone", "eu")]);
    let c = properties(&[("arch", "arm")]);
    assert!(a.is_le(&b));
    assert!(!b.is_le(&a));
    assert!(!a.is_le(&c));
    assert!(a.conflict(&c));
    assert!(!a.conflict(&b));
    assert!(!a.conflict(&properties(&[("zone", "us")])));
    assert!(b.matches("zone", "eu"));
    assert!(!b.matches("zone", "us"));
    assert_eq!(b.get("arch").map(|s| s.as_str()), Some("x86"));
    assert_eq!(b.get("rack"), None);
}

#[test]
fn properties_extend_prefers_other() {
    let mut a = properties(&[("arch", "x86"), ("zone", "eu")]);
    a.extend(&properties(&[("zone", "us"), ("tier", "gold")]));
    assert!(a.matches("arch", "x86"));
    assert!(a.matches("zone", "us"));
    assert!(a.matches("tier", "gold"));
}

#[test]
fn nodes_order_cases() {
    let sel = |v: Vec<usize>| NodesRequirement::Select(v);
    assert!(NodesRequirement::Auto.is_le(&sel(vec![3])));
    assert!(!NodesRequirement::Auto.is_le(&sel(vec![])));
    assert!(NodesRequirement::Auto.is_le(&NodesRequirement::Auto));
    assert!(sel(vec![1, 2]).is_le(&sel(vec![0, 1, 2])));
    assert!(!sel(vec![1, 5]).is_le(&sel(vec![0, 1, 2])));
    assert!(NodesRequirement::Use(3).is_le(&sel(vec![0, 1, 2])));
    assert!(!NodesRequirement::Use(4).is_le(&sel(vec![0, 1, 2, 2])));
    assert!(NodesRequirement::Use(2).is_le(&NodesRequirement::Use(2)));
    assert!(!NodesRequirement::Use(3).is_le(&NodesRequirement::Use(2)));
    assert!(!sel(vec![0]).is_le(&NodesRequirement::Use(4)));
    assert!(NodesRequirement::Use(0).is_zero());
    assert!(sel(vec![]).is_zero());
    assert!(!NodesRequirement::Auto.is_zero());
}

#[test]
fn nodes_string_is_ascending() {
    let s = NodesRequirement::Select(vec![10, 2, 5, 2, 0]);
    assert_eq!(s.to_string(), Some("0,2,5,10".to_string()));
    assert_eq!(NodesRequirement::Select(vec![7]).to_string(), Some("7".to_string()));
    assert_eq!(NodesRequirement::Select(vec![]).to_string(), None);
    assert_eq!(NodesRequirement::Use(2).to_string(), None);
    assert_eq!(NodesRequirement::Auto.to_string(), None);
}

#[test]
fn take_set_gives_selection() {
    let s = NodesRequirement::Select(vec![4, 1]);
    assert_eq!(s.take_set(), &vec![4, 1]);
}

#[test]
fn acceptable_checks_cpus_countables_properties() {
    let p = provider(
        vec![0, 1, 2, 3],
        vec![0],
        countables(&[("memory", 8)]),
        properties(&[("arch", "x86")]),
    );
    let ok = requirement(
        NodesRequirement::Use(4),
        NodesRequirement::Use(2),
        countables(&[("memory", 8)]),
        properties(&[("arch", "x86")]),
    );
    assert!(p.acceptable(&ok));
    assert!(!p.execlusive_mem_acceptable(&ok));
    let too_many = requirement(
        NodesRequirement::Use(5),
        NodesRequirement::Auto,
        Countables::new(),
        Properties::new(),
    );
    assert!(!p.acceptable(&too_many));
    let wrong_arch = requirement(
        NodesRequirement::Auto,
        NodesRequirement::Auto,
        Countables::new(),
        properties(&[("arch", "arm")]),
    );
    assert!(!p.acceptable(&wrong_arch));
    let too_much_memory = requirement(
        NodesRequirement::Select(vec![1]),
        NodesRequirement::Auto,
        countables(&[("memory", 9)]),
        Properties::new(),
    );
    assert!(!p.acceptable(&too_much_memory));
    let mem_fit = requirement(
        NodesRequirement::Select(vec![1]),
        NodesRequirement::Select(vec![0]),
        Countables::new(),
        Properties::new(),
    );
    assert!(p.execlusive_mem_acceptable(&mem_fit));
}

#[test]
fn acceptable_survives_weaker_requirement() {
    let p = provider(vec![0, 1], vec![0], countables(&[("memory", 8), ("gpu", 1)]), Properties::new());
    let r = requirement(
        NodesRequirement::Select(vec![0, 1]),
        NodesRequirement::Auto,
        countables(&[("memory", 8), ("gpu", 1)]),
        Properties::new(),
    );
    assert!(p.acceptable(&r));
    let weaker = requirement(
        NodesRequirement::Select(vec![1]),
        NodesRequirement::Auto,
        countables(&[("memory", 8)]),
        Properties::new(),
    );
    assert!(p.acceptable(&weaker));
}

#[test]
fn requirement_order_all_axes() {
    let a = requirement(
        NodesRequirement::Use(1),
        NodesRequirement::Auto,
        countables(&[("memory", 1)]),
        Properties::new(),
    );
    let b = requirement(
        NodesRequirement::Use(2),
        NodesRequirement::Use(1),
        countables(&[("memory", 2)]),
        properties(&[("arch", "x86")]),
    );
    assert!(a.is_le(&b));
    assert!(!b.is_le(&a));
}

#[test]
fn resources_record_setters_copy() {
    let r = Resources::new();
    let r2 = r.set_countable("memory", 10).set_property("arch", "x86");
    assert_eq!(r.get_countable("memory"), 0);
    assert_eq!(r2.get_countable("memory"), 10);
    assert!(r2.has_enough("memory", 10));
    assert!(!r2.has_enough("memory", 11));
    assert!(r2.not_over("memory", 10));
    assert!(!r2.not_over("memory", 9));
    assert!(r2.property_is("arch", "x86"));
    assert_eq!(r2.property("arch").map(|s| s.as_str()), Some("x86"));
    let r3 = r2.remove_countable("memory").remove_property("arch");
    assert_eq!(r3.get_countable("memory"), 0);
    assert_eq!(r3.property("arch"), None);
    assert_eq!(r3.countables().get_all().len(), 0);
    assert_eq!(r3.properties().get_all().len(), 0);
}

#[test]
fn nodes_spec_sets_and_text() {
    let mut three = Nodes::Use(3).to_hashset();
    three.sort();
    assert_eq!(three, vec![0, 1, 2]);
    assert_eq!(Nodes::Use(0).to_hashset(), Vec::<usize>::new());
    assert_eq!(Nodes::Auto.to_hashset(), Vec::<usize>::new());
    assert_eq!(Nodes::Select(vec![3, 1]).to_string(), "1,3,");
    assert_eq!(Nodes::Use(3).to_string(), "0,1,2,");
    assert_eq!(Nodes::Use(0).to_string(), "");
    match default_cpu_mems() {
        Nodes::Select(v) => assert_eq!(v, vec![0]),
        _ => panic!("expected a selection"),
    }
    assert_eq!(listen_all(), [0, 0, 0, 0]);
    assert_eq!(default_port(), 9500);
}
