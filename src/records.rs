//! Plain records exchanged with vertices and clients: a flat resource
//! record with copy-on-write setters, node specifications, job status
//! reports, connection settings, client commands and configuration defaults.
use vstd::prelude::*;

use crate::jobs::JobConfiguration;
use crate::nodes::{sorted_nodes, strictly_increasing};
use crate::resources::{count_of, Countables, Properties};
use crate::util::{decimal, decimal_digits, now_to_millis};

verus! {

/// A node specification: exact nodes, a number of nodes, or any.
pub enum Nodes {
    Select(Vec<usize>),
    Use(usize),
    Auto,
}

/// Each number of `s` in decimal, followed by a comma.
pub open spec fn comma_terminated(s: Seq<usize>) -> Seq<char>
    decreases s.len(),
{
    if s.len() == 0 {
        Seq::empty()
    } else {
        comma_terminated(s.drop_last()) + decimal_digits(s.last() as nat) + seq![',']
    }
}

/// The nodes a specification means: those of a `Select`; for `Use(n)` the
/// `n` nodes `0 .. n`; none for `Auto`.
pub open spec fn nodes_meant(n: Nodes) -> Set<usize> {
    match n {
        Nodes::Select(s) => s@.to_set(),
        Nodes::Use(k) => Set::new(|x: usize| x < k),
        Nodes::Auto => Set::empty(),
    }
}

impl Nodes {
    /// The nodes meant: those of a `Select`; for `Use(n)` the nodes
    /// `0 .. n`; none for `Auto`.
    pub fn to_hashset(&self) -> (r: Vec<usize>)
        ensures
            r@.to_set() == nodes_meant(*self),
    {
        match self {
            Nodes::Select(set) => set.clone(),
            Nodes::Use(size) => {
                let mut out: Vec<usize> = Vec::new();
                let mut x: usize = 0;
                while x < *size
                    invariant
                        x <= *size,
                        out@.len() == x,
                        forall|j: int| 0 <= j < x ==> out@[j] == j,
                    decreases *size - x,
                {
                    out.push(x);
                    x = x + 1;
                }
                proof {
                    assert forall|y: usize| out@.to_set().contains(y) <==> y < *size by {
                        if y < *size {
                            assert(out@[y as int] == y);
                        }
                    }
                }
                assert(out@.to_set() =~= Set::new(|y: usize| y < *size));
                out
            },
            Nodes::Auto => {
                let out: Vec<usize> = Vec::new();
                assert(out@.to_set() =~= Set::<usize>::empty());
                out
            },
        }
    }

    /// The nodes meant, in ascending order, each written in decimal and
    /// followed by a comma.
    pub fn to_string(&self) -> (r: String)
        ensures
            exists|s: Seq<usize>|
                strictly_increasing(s) && s.to_set() == nodes_meant(*self) && r@ == comma_terminated(s),
    {
        let set = self.to_hashset();
        let s = sorted_nodes(&set);
        let mut text = String::new();
        let mut i: usize = 0;
        while i < s.len()
            invariant
                0 <= i <= s.len(),
                text@ == comma_terminated(s@.take(i as int)),
            decreases s.len() - i,
        {
            let d = decimal(s[i]);
            proof {
                reveal_strlit(",");
                assert(s@.take(i + 1).drop_last() == s@.take(i as int));
            }
            text.append(d.as_str());
            text.append(",");
            i = i + 1;
        }
        assert(s@.take(i as int) == s@);
        text
    }
}

/// The node specification of memory nodes when none is given: node 0.
pub fn default_cpu_mems() -> (r: Nodes)
    ensures
        r matches Nodes::Select(s) && s@ == seq![0usize],
{
    let mut v: Vec<usize> = Vec::new();
    v.push(0);
    Nodes::Select(v)
}

/// The address a vertex listens on when none is given: every interface.
pub fn listen_all() -> (r: [u8; 4])
    ensures
        r@ == seq![0u8, 0u8, 0u8, 0u8],
{
    let r = [0u8, 0u8, 0u8, 0u8];
    assert(r@ =~= seq![0u8, 0u8, 0u8, 0u8]);
    r
}

/// The port a vertex listens on when none is given.
pub fn default_port() -> (r: u16)
    ensures
        r == 9500,
{
    9500
}

/// Countables and properties in one record, changed by returning changed
/// copies.
pub struct Resources {
    pub countables: Countables,
    pub properties: Properties,
}

impl Resources {
    /// No countables, no properties.
    pub fn new() -> (r: Self)
        ensures
            r.countables@ == Map::<Seq<char>, usize>::empty(),
            r.properties@ == Map::<Seq<char>, Seq<char>>::empty(),
    {
        Resources { countables: Countables::new(), properties: Properties::new() }
    }

    /// The countables.
    pub fn countables(&self) -> (r: &Countables)
        ensures
            r@ == self.countables@,
    {
        &self.countables
    }

    /// The properties.
    pub fn properties(&self) -> (r: &Properties)
        ensures
            r@ == self.properties@,
    {
        &self.properties
    }

    /// The value of property `key`, if set.
    pub fn property<'a>(&'a self, key: &str) -> (r: Option<&'a String>)
        ensures
            r matches Some(v) ==> self.properties@.contains_key(key@) && self.properties@[key@] == v@,
            r is None ==> !self.properties@.contains_key(key@),
    {
        self.properties.get(key)
    }

    /// The amount of countable `key`, 0 where it is missing.
    pub fn get_countable(&self, key: &str) -> (r: usize)
        ensures
            r == count_of(self.countables@, key@),
    {
        self.countables.get(key)
    }

    /// A copy with countable `key` set to `value`.
    pub fn set_countable(&self, key: &str, value: usize) -> (r: Self)
        ensures
            r.countables@ == self.countables@.insert(key@, value),
            r.properties@ == self.properties@,
    {
        let mut countables = self.countables.clone();
        countables.set(key, value);
        Resources { countables, properties: self.properties.clone() }
    }

    /// A copy without countable `key`.
    pub fn remove_countable(&self, key: &str) -> (r: Self)
        ensures
            r.countables@ == self.countables@.remove(key@),
            r.properties@ == self.properties@,
    {
        let mut countables = self.countables.clone();
        countables.remove(key);
        Resources { countables, properties: self.properties.clone() }
    }

    /// Whether at least `value` of `key` is there.
    pub fn has_enough(&self, key: &str, value: usize) -> (r: bool)
        ensures
            r == (count_of(self.countables@, key@) >= value),
    {
        self.countables.get(key) >= value
    }

    /// Whether at most `value` of `key` is there.
    pub fn not_over(&self, key: &str, value: usize) -> (r: bool)
        ensures
            r == (count_of(self.countables@, key@) <= value),
    {
        self.countables.get(key) <= value
    }

    /// A copy with property `key` set to `value`.
    pub fn set_property(&self, key: &str, value: &str) -> (r: Self)
        ensures
            r.countables@ == self.countables@,
            r.properties@ == self.properties@.insert(key@, value@),
    {
        let mut properties = self.properties.clone();
        properties.set(key, value);
        Resources { countables: self.countables.clone(), properties }
    }

    /// A copy without property `key`.
    pub fn remove_property(&self, key: &str) -> (r: Self)
        ensures
            r.countables@ == self.countables@,
            r.properties@ == self.properties@.remove(key@),
    {
        let mut properties = self.properties.clone();
        properties.remove(key);
        Resources { countables: self.countables.clone(), properties }
    }

    /// Whether property `key` is set to exactly `value`.
    pub fn property_is(&self, key: &str, value: &str) -> (r: bool)
        ensures
            r == (self.properties@.contains_key(key@) && self.properties@[key@] == value@),
    {
        self.properties.matches(key, value)
    }
}

/// The free resources a vertex reports: its free CPUs and countables.
pub struct VertexFreeApi {
    pub cpus: Vec<usize>,
    pub countables: Countables,
}

impl VertexFreeApi {
    /// A report of these CPUs and countables.
    pub fn new(cpus: &Vec<usize>, countables: &Countables) -> (r: Self)
        ensures
            r.cpus@ == cpus@,
            r.countables@ == countables@,
    {
        VertexFreeApi { cpus: cpus.clone(), countables: countables.clone() }
    }
}

/// The state of a job's process: running since a millisecond on the given
/// nodes, or finished at a millisecond with its output.
pub enum ProcessStatus {
    RUNNING(u128, Vec<usize>),
    FINISHED(u128, String),
}

impl ProcessStatus {
    /// Finished now, with this output.
    pub fn finish(output: &str) -> (r: Self)
        ensures
            r matches ProcessStatus::FINISHED(_, text) && text@ == output@,
    {
        ProcessStatus::FINISHED(now_to_millis(), output.to_owned())
    }
}

/// A job as a vertex reports it.
pub struct JobStatus {
    pub task_id: String,
    pub basic_user: String,
    pub configuration: JobConfiguration,
    pub process: ProcessStatus,
}

impl JobStatus {
    /// Whether the job's process still runs.
    pub fn is_running(&self) -> (r: bool)
        ensures
            r == (self.process is RUNNING),
    {
        match self.process {
            ProcessStatus::RUNNING(_, _) => true,
            _ => false,
        }
    }
}

/// How the dispatcher reaches a vertex.
pub struct VertexConnect {
    pub url: String,
    pub username: String,
    pub password: String,
}

impl VertexConnect {
    /// The settings for a vertex at `url` with these credentials.
    pub fn new(url: &str, username: &str, password: &str) -> (r: Self)
        ensures
            r.url@ == url@,
            r.username@ == username@,
            r.password@ == password@,
    {
        VertexConnect { url: url.to_owned(), username: username.to_owned(), password: password.to_owned() }
    }
}

/// What a user asks of the dispatcher from the command line.
pub enum ClientCommands {
    Submit { queue: String, filepath: String },
    Delete { id: String },
    Status,
}

} // verus!
