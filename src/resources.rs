//! The resource algebra: countable resources, string properties, node
//! requirements, and the acceptance of a requirement by a provider.
use vstd::prelude::*;

use crate::nodes::{is_subset, node_count, sorted_nodes, strictly_increasing};
use crate::util::{decimal, decimal_digits};

verus! {

// ---------------------------------------------------------------------------
// Keyed entries: a vector of (key, value) pairs read as a map in which the
// first entry for a key is the one that counts.
// ---------------------------------------------------------------------------
/// The map that a list of entries stands for; the first entry of a key wins.
pub open spec fn entries_view<V: View>(s: Seq<(String, V)>) -> Map<Seq<char>, V::V>
    decreases s.len(),
{
    if s.len() == 0 {
        Map::empty()
    } else {
        let m = entries_view(s.drop_last());
        if m.contains_key(s.last().0@) {
            m
        } else {
            m.insert(s.last().0@, s.last().1@)
        }
    }
}

/// A key is in the map exactly when some entry carries it.
pub proof fn lemma_entries_dom<V: View>(s: Seq<(String, V)>, k: Seq<char>)
    ensures
        entries_view(s).contains_key(k) <==> exists|j: int| 0 <= j < s.len() && (#[trigger] s[j]).0@ == k,
    decreases s.len(),
{
    if s.len() > 0 {
        lemma_entries_dom(s.drop_last(), k);
        if entries_view(s).contains_key(k) && !entries_view(s.drop_last()).contains_key(k) {
            assert(s[s.len() - 1].0@ == k);
        }
        if exists|j: int| 0 <= j < s.len() && (#[trigger] s[j]).0@ == k {
            let j = choose|j: int| 0 <= j < s.len() && (#[trigger] s[j]).0@ == k;
            if j < s.len() - 1 {
                assert(s.drop_last()[j].0@ == k);
            }
        }
    }
}

/// The first entry of a key gives its value.
pub proof fn lemma_entries_first<V: View>(s: Seq<(String, V)>, i: int)
    requires
        0 <= i < s.len(),
        forall|j: int| 0 <= j < i ==> (#[trigger] s[j]).0@ != s[i].0@,
    ensures
        entries_view(s).contains_key(s[i].0@),
        entries_view(s)[s[i].0@] == s[i].1@,
    decreases s.len(),
{
    if i == s.len() - 1 {
        lemma_entries_dom(s.drop_last(), s[i].0@);
        if entries_view(s.drop_last()).contains_key(s[i].0@) {
            let j = choose|j: int| 0 <= j < s.drop_last().len() && (#[trigger] s.drop_last()[j]).0@ == s[i].0@;
            assert(s[j].0@ == s[i].0@);
        }
    } else {
        let d = s.drop_last();
        assert forall|j: int| 0 <= j < i implies (#[trigger] d[j]).0@ != d[i].0@ by {
            assert(s[j].0@ != s[i].0@);
        }
        lemma_entries_first(d, i);
    }
}

/// Where no entry carries a key, the map does not hold it.
pub proof fn lemma_entries_absent<V: View>(s: Seq<(String, V)>, k: Seq<char>)
    requires
        forall|j: int| 0 <= j < s.len() ==> (#[trigger] s[j]).0@ != k,
    ensures
        !entries_view(s).contains_key(k),
{
    lemma_entries_dom(s, k);
}

/// The index of the first entry whose key is `k`.
pub fn find_key<V>(s: &Vec<(String, V)>, k: &String) -> (r: Option<usize>)
    ensures
        r matches Some(i) ==> i < s@.len() && s@[i as int].0@ == k@ && forall|j: int|
            0 <= j < i ==> (#[trigger] s@[j]).0@ != k@,
        r is None ==> forall|j: int| 0 <= j < s@.len() ==> (#[trigger] s@[j]).0@ != k@,
{
    let mut i: usize = 0;
    while i < s.len()
        invariant
            0 <= i <= s.len(),
            forall|j: int| 0 <= j < i ==> (#[trigger] s@[j]).0@ != k@,
        decreases s.len() - i,
    {
        if s[i].0 == *k {
            return Some(i);
        }
        i = i + 1;
    }
    None
}

/// Looks `k` up in the entries: the value of its first entry.
pub fn lookup<'a, V: View>(s: &'a Vec<(String, V)>, k: &String) -> (r: Option<&'a V>)
    ensures
        r matches Some(v) ==> entries_view(s@).contains_key(k@) && entries_view(s@)[k@] == v@,
        r is None ==> !entries_view(s@).contains_key(k@),
{
    match find_key(s, k) {
        Some(i) => {
            proof {
                lemma_entries_first(s@, i as int);
            }
            Some(&s[i].1)
        },
        None => {
            proof {
                lemma_entries_absent(s@, k@);
            }
            None
        },
    }
}

proof fn lemma_entries_push<V: View>(s: Seq<(String, V)>, p: (String, V))
    ensures
        entries_view(s.push(p)) == if entries_view(s).contains_key(p.0@) {
            entries_view(s)
        } else {
            entries_view(s).insert(p.0@, p.1@)
        },
{
    assert(s.push(p).drop_last() == s);
}

// ---------------------------------------------------------------------------
// Countables
// ---------------------------------------------------------------------------
/// The amount that a map of countables gives a key: 0 where it is missing.
pub open spec fn count_of(m: Map<Seq<char>, usize>, k: Seq<char>) -> nat {
    if m.contains_key(k) {
        m[k] as nat
    } else {
        0
    }
}

/// `a ≤ b` for countables: every amount of `a` is covered by `b`.
pub open spec fn countables_le(a: Map<Seq<char>, usize>, b: Map<Seq<char>, usize>) -> bool {
    forall|k: Seq<char>| #[trigger] a.contains_key(k) ==> a[k] <= count_of(b, k)
}

/// `≤` on countables is transitive.
pub proof fn lemma_countables_le_trans(
    a: Map<Seq<char>, usize>,
    b: Map<Seq<char>, usize>,
    c: Map<Seq<char>, usize>,
)
    requires
        countables_le(a, b),
        countables_le(b, c),
    ensures
        countables_le(a, c),
{
    assert forall|k: Seq<char>| a.contains_key(k) implies a[k] <= count_of(c, k) by {
        if b.contains_key(k) {
            assert(b[k] <= count_of(c, k));
        }
    }
}

/// Named non-negative amounts (memory, licences, ...); a missing name reads as 0.
pub struct Countables(pub Vec<(String, usize)>);

impl View for Countables {
    type V = Map<Seq<char>, usize>;

    open spec fn view(&self) -> Map<Seq<char>, usize> {
        entries_view(self.0@)
    }
}

impl Clone for Countables {
    fn clone(&self) -> (r: Self)
        ensures
            r@ == self@,
    {
        let mut out: Vec<(String, usize)> = Vec::new();
        let mut i: usize = 0;
        while i < self.0.len()
            invariant
                0 <= i <= self.0.len(),
                out@.len() == i,
                forall|j: int|
                    0 <= j < i ==> (#[trigger] out@[j]).0@ == self.0@[j].0@ && out@[j].1
                        == self.0@[j].1,
            decreases self.0.len() - i,
        {
            out.push((self.0[i].0.clone(), self.0[i].1));
            i = i + 1;
        }
        proof {
            lemma_same_keys_same_view_usize(out@, self.0@);
        }
        Countables(out)
    }
}

proof fn lemma_same_keys_same_view_usize(a: Seq<(String, usize)>, b: Seq<(String, usize)>)
    requires
        a.len() == b.len(),
        forall|j: int| 0 <= j < a.len() ==> (#[trigger] a[j]).0@ == b[j].0@ && a[j].1 == b[j].1,
    ensures
        entries_view(a) == entries_view(b),
    decreases a.len(),
{
    if a.len() > 0 {
        lemma_same_keys_same_view_usize(a.drop_last(), b.drop_last());
        assert(a.last().0@ == b.last().0@);
    }
}

impl Countables {
    /// No countables at all.
    pub fn new() -> (r: Self)
        ensures
            r@ == Map::<Seq<char>, usize>::empty(),
    {
        Countables(Vec::new())
    }

    /// The entries as they are stored.
    pub fn get_all(&self) -> (r: &Vec<(String, usize)>)
        ensures
            r@ == self.0@,
    {
        &self.0
    }

    /// Sets the amount of `k` to `v`.
    pub fn set(&mut self, k: &str, v: usize)
        ensures
            final(self)@ == old(self)@.insert(k@, v),
    {
        let key = k.to_owned();
        let mut out: Vec<(String, usize)> = Vec::new();
        let mut i: usize = 0;
        while i < self.0.len()
            invariant
                0 <= i <= self.0.len(),
                self.0@ == old(self).0@,
                key@ == k@,
                entries_view(out@) == entries_view(self.0@.take(i as int)).remove(k@),
            decreases self.0.len() - i,
        {
            let ghost t = self.0@.take(i as int);
            assert(self.0@.take(i + 1) == t.push(self.0@[i as int]));
            proof {
                lemma_entries_push(t, self.0@[i as int]);
            }
            if self.0[i].0 != key {
                let e = (self.0[i].0.clone(), self.0[i].1);
                proof {
                    lemma_entries_push(out@, e);
                }
                out.push(e);
                assert(entries_view(out@) =~= entries_view(self.0@.take(i + 1)).remove(k@));
            } else {
                assert(entries_view(out@) =~= entries_view(self.0@.take(i + 1)).remove(k@));
            }
            i = i + 1;
        }
        assert(self.0@.take(self.0@.len() as int) == self.0@);
        let e = (key, v);
        proof {
            lemma_entries_push(out@, e);
        }
        out.push(e);
        assert(entries_view(out@) =~= old(self)@.insert(k@, v));
        self.0 = out;
    }

    /// Removes `k`.
    pub fn remove(&mut self, k: &str)
        ensures
            final(self)@ == old(self)@.remove(k@),
    {
        let key = k.to_owned();
        let mut out: Vec<(String, usize)> = Vec::new();
        let mut i: usize = 0;
        while i < self.0.len()
            invariant
                0 <= i <= self.0.len(),
                self.0@ == old(self).0@,
                key@ == k@,
                entries_view(out@) == entries_view(self.0@.take(i as int)).remove(k@),
            decreases self.0.len() - i,
        {
            let ghost t = self.0@.take(i as int);
            assert(self.0@.take(i + 1) == t.push(self.0@[i as int]));
            proof {
                lemma_entries_push(t, self.0@[i as int]);
            }
            if self.0[i].0 != key {
                let e = (self.0[i].0.clone(), self.0[i].1);
                proof {
                    lemma_entries_push(out@, e);
                }
                out.push(e);
                assert(entries_view(out@) =~= entries_view(self.0@.take(i + 1)).remove(k@));
            } else {
                assert(entries_view(out@) =~= entries_view(self.0@.take(i + 1)).remove(k@));
            }
            i = i + 1;
        }
        assert(self.0@.take(self.0@.len() as int) == self.0@);
        self.0 = out;
    }

    /// The amount of `k`, 0 where it is missing.
    pub fn get(&self, k: &str) -> (r: usize)
        ensures
            r == count_of(self@, k@),
    {
        let key = k.to_owned();
        match lookup(&self.0, &key) {
            Some(v) => *v,
            None => 0,
        }
    }

    /// Whether at least `usage` of `k` is there.
    pub fn enough(&self, k: &str, usage: usize) -> (r: bool)
        ensures
            r == (count_of(self@, k@) >= usage),
    {
        self.get(k) >= usage
    }

    /// `self ≤ other`: every amount named here is covered by `other`.
    pub fn is_le(&self, other: &Countables) -> (r: bool)
        ensures
            r == countables_le(self@, other@),
    {
        let mut i: usize = 0;
        while i < self.0.len()
            invariant
                0 <= i <= self.0.len(),
                forall|j: int|
                    0 <= j < i ==> count_of(self@, (#[trigger] self.0@[j]).0@) <= count_of(
                        other@,
                        self.0@[j].0@,
                    ),
            decreases self.0.len() - i,
        {
            let k = self.0[i].0.as_str();
            if self.get(k) > other.get(k) {
                proof {
                    lemma_entries_dom(self.0@, self.0@[i as int].0@);
                }
                return false;
            }
            i = i + 1;
        }
        proof {
            assert forall|k: Seq<char>| self@.contains_key(k) implies self@[k] <= count_of(
                other@,
                k,
            ) by {
                lemma_entries_dom(self.0@, k);
                let j = choose|j: int| 0 <= j < self.0@.len() && (#[trigger] self.0@[j]).0@ == k;
                assert(self.0@[j].0@ == k);
            }
        }
        true
    }
}

// ---------------------------------------------------------------------------
// Properties
// ---------------------------------------------------------------------------
/// `a ≤ b` for properties: every key of `a` is in `b` with the same value.
pub open spec fn properties_le(a: Map<Seq<char>, Seq<char>>, b: Map<Seq<char>, Seq<char>>) -> bool {
    forall|k: Seq<char>| #[trigger] a.contains_key(k) ==> b.contains_key(k) && b[k] == a[k]
}

/// Some key is in both with different values.
pub open spec fn properties_conflict(
    a: Map<Seq<char>, Seq<char>>,
    b: Map<Seq<char>, Seq<char>>,
) -> bool {
    exists|k: Seq<char>| a.contains_key(k) && b.contains_key(k) && a[k] != b[k]
}

/// Named string tags of a host or a job.
pub struct Properties(pub Vec<(String, String)>);

impl View for Properties {
    type V = Map<Seq<char>, Seq<char>>;

    open spec fn view(&self) -> Map<Seq<char>, Seq<char>> {
        entries_view(self.0@)
    }
}

proof fn lemma_same_keys_same_view_string(a: Seq<(String, String)>, b: Seq<(String, String)>)
    requires
        a.len() == b.len(),
        forall|j: int| 0 <= j < a.len() ==> (#[trigger] a[j]).0@ == b[j].0@ && a[j].1@ == b[j].1@,
    ensures
        entries_view(a) == entries_view(b),
    decreases a.len(),
{
    if a.len() > 0 {
        lemma_same_keys_same_view_string(a.drop_last(), b.drop_last());
        assert(a.last().0@ == b.last().0@);
    }
}

impl Clone for Properties {
    fn clone(&self) -> (r: Self)
        ensures
            r@ == self@,
    {
        let mut out: Vec<(String, String)> = Vec::new();
        let mut i: usize = 0;
        while i < self.0.len()
            invariant
                0 <= i <= self.0.len(),
                out@.len() == i,
                forall|j: int|
                    0 <= j < i ==> (#[trigger] out@[j]).0@ == self.0@[j].0@ && out@[j].1@
                        == self.0@[j].1@,
            decreases self.0.len() - i,
        {
            out.push((self.0[i].0.clone(), self.0[i].1.clone()));
            i = i + 1;
        }
        proof {
            lemma_same_keys_same_view_string(out@, self.0@);
        }
        Properties(out)
    }
}

impl Properties {
    /// No properties at all.
    pub fn new() -> (r: Self)
        ensures
            r@ == Map::<Seq<char>, Seq<char>>::empty(),
    {
        Properties(Vec::new())
    }

    /// The entries as they are stored.
    pub fn get_all(&self) -> (r: &Vec<(String, String)>)
        ensures
            r@ == self.0@,
    {
        &self.0
    }

    /// The value of `k`, if it is set.
    pub fn get<'a>(&'a self, k: &str) -> (r: Option<&'a String>)
        ensures
            r matches Some(v) ==> self@.contains_key(k@) && self@[k@] == v@,
            r is None ==> !self@.contains_key(k@),
    {
        let key = k.to_owned();
        lookup(&self.0, &key)
    }

    /// Sets `k` to `v`.
    pub fn set(&mut self, k: &str, v: &str)
        ensures
            final(self)@ == old(self)@.insert(k@, v@),
    {
        let key = k.to_owned();
        let mut out: Vec<(String, String)> = Vec::new();
        let mut i: usize = 0;
        while i < self.0.len()
            invariant
                0 <= i <= self.0.len(),
                self.0@ == old(self).0@,
                key@ == k@,
                entries_view(out@) == entries_view(self.0@.take(i as int)).remove(k@),
            decreases self.0.len() - i,
        {
            let ghost t = self.0@.take(i as int);
            assert(self.0@.take(i + 1) == t.push(self.0@[i as int]));
            proof {
                lemma_entries_push(t, self.0@[i as int]);
            }
            if self.0[i].0 != key {
                let e = (self.0[i].0.clone(), self.0[i].1.clone());
                proof {
                    lemma_entries_push(out@, e);
                }
                out.push(e);
                assert(entries_view(out@) =~= entries_view(self.0@.take(i + 1)).remove(k@));
            } else {
                assert(entries_view(out@) =~= entries_view(self.0@.take(i + 1)).remove(k@));
            }
            i = i + 1;
        }
        assert(self.0@.take(self.0@.len() as int) == self.0@);
        let e = (key, v.to_owned());
        proof {
            lemma_entries_push(out@, e);
        }
        out.push(e);
        assert(entries_view(out@) =~= old(self)@.insert(k@, v@));
        self.0 = out;
    }

    /// Removes `k`.
    pub fn remove(&mut self, k: &str)
        ensures
            final(self)@ == old(self)@.remove(k@),
    {
        let key = k.to_owned();
        let mut out: Vec<(String, String)> = Vec::new();
        let mut i: usize = 0;
        while i < self.0.len()
            invariant
                0 <= i <= self.0.len(),
                self.0@ == old(self).0@,
                key@ == k@,
                entries_view(out@) == entries_view(self.0@.take(i as int)).remove(k@),
            decreases self.0.len() - i,
        {
            let ghost t = self.0@.take(i as int);
            assert(self.0@.take(i + 1) == t.push(self.0@[i as int]));
            proof {
                lemma_entries_push(t, self.0@[i as int]);
            }
            if self.0[i].0 != key {
                let e = (self.0[i].0.clone(), self.0[i].1.clone());
                proof {
                    lemma_entries_push(out@, e);
                }
                out.push(e);
                assert(entries_view(out@) =~= entries_view(self.0@.take(i + 1)).remove(k@));
            } else {
                assert(entries_view(out@) =~= entries_view(self.0@.take(i + 1)).remove(k@));
            }
            i = i + 1;
        }
        assert(self.0@.take(self.0@.len() as int) == self.0@);
        self.0 = out;
    }

    /// Whether `k` is set to exactly `v`.
    pub fn matches(&self, k: &str, v: &str) -> (r: bool)
        ensures
            r == (self@.contains_key(k@) && self@[k@] == v@),
    {
        match self.get(k) {
            Some(value) => {
                let w = v.to_owned();
                *value == w
            },
            None => false,
        }
    }

    /// Copies every property of `other` in, replacing values of keys that are
    /// already set.
    pub fn extend(&mut self, other: &Properties)
        ensures
            final(self)@ == old(self)@.union_prefer_right(other@),
    {
        let mut i: usize = 0;
        while i < other.0.len()
            invariant
                0 <= i <= other.0.len(),
                self@ == old(self)@.union_prefer_right(entries_view(other.0@.take(i as int))),
            decreases other.0.len() - i,
        {
            let ghost t = other.0@.take(i as int);
            assert(other.0@.take(i + 1) == t.push(other.0@[i as int]));
            proof {
                lemma_entries_push(t, other.0@[i as int]);
            }
            let first = find_key(&other.0, &other.0[i].0);
            if first == Some(i) {
                proof {
                    lemma_entries_absent(t, other.0@[i as int].0@);
                }
                self.set(other.0[i].0.as_str(), other.0[i].1.as_str());
                assert(self@ =~= old(self)@.union_prefer_right(
                    entries_view(other.0@.take(i + 1)),
                ));
            } else {
                proof {
                    let j = first.unwrap();
                    assert(t[j as int].0@ == other.0@[i as int].0@);
                    lemma_entries_dom(t, other.0@[i as int].0@);
                }
            }
            i = i + 1;
        }
        assert(other.0@.take(other.0@.len() as int) == other.0@);
    }

    /// Whether some key is set both here and in `other` with different values.
    pub fn conflict(&self, other: &Properties) -> (r: bool)
        ensures
            r == properties_conflict(self@, other@),
    {
        let mut i: usize = 0;
        while i < self.0.len()
            invariant
                0 <= i <= self.0.len(),
                forall|j: int|
                    0 <= j < i ==> {
                        let k = (#[trigger] self.0@[j]).0@;
                        !(self@.contains_key(k) && other@.contains_key(k) && self@[k] != other@[k])
                    },
            decreases self.0.len() - i,
        {
            let k = self.0[i].0.as_str();
            match (self.get(k), other.get(k)) {
                (Some(a), Some(b)) => {
                    if *a != *b {
                        return true;
                    }
                },
                _ => {},
            }
            i = i + 1;
        }
        proof {
            if properties_conflict(self@, other@) {
                let k = choose|k: Seq<char>|
                    self@.contains_key(k) && other@.contains_key(k) && self@[k] != other@[k];
                lemma_entries_dom(self.0@, k);
                let j = choose|j: int| 0 <= j < self.0@.len() && (#[trigger] self.0@[j]).0@ == k;
            }
        }
        false
    }

    /// `self ≤ other`: every property set here is set to the same value in `other`.
    pub fn is_le(&self, other: &Properties) -> (r: bool)
        ensures
            r == properties_le(self@, other@),
    {
        let mut i: usize = 0;
        while i < self.0.len()
            invariant
                0 <= i <= self.0.len(),
                forall|j: int|
                    0 <= j < i ==> {
                        let k = (#[trigger] self.0@[j]).0@;
                        self@.contains_key(k) ==> other@.contains_key(k) && other@[k] == self@[k]
                    },
            decreases self.0.len() - i,
        {
            let k = self.0[i].0.as_str();
            match self.get(k) {
                Some(v) => {
                    if !other.matches(k, v.as_str()) {
                        return false;
                    }
                },
                None => {},
            }
            i = i + 1;
        }
        proof {
            assert forall|k: Seq<char>| #[trigger] self@.contains_key(k) implies other@.contains_key(k)
                && other@[k] == self@[k] by {
                lemma_entries_dom(self.0@, k);
                let j = choose|j: int| 0 <= j < self.0@.len() && (#[trigger] self.0@[j]).0@ == k;
                assert(self.0@[j].0@ == k);
                assert(other@.contains_key(k));
                assert(other@[k] == self@[k]);
            }
        }
        true
    }
}

// ---------------------------------------------------------------------------
// Node requirements
// ---------------------------------------------------------------------------
/// How many CPU or memory nodes a job asks for.
pub enum NodesRequirement {
    /// Exactly these nodes.
    Select(Vec<usize>),
    /// Any this many nodes.
    Use(usize),
    /// At least one node.
    Auto,
}

/// The meaning of a node requirement.
pub enum NodesSpec {
    Select(Set<usize>),
    Use(nat),
    Auto,
}

impl View for NodesRequirement {
    type V = NodesSpec;

    open spec fn view(&self) -> NodesSpec {
        match self {
            NodesRequirement::Select(s) => NodesSpec::Select(s@.to_set()),
            NodesRequirement::Use(n) => NodesSpec::Use(*n as nat),
            NodesRequirement::Auto => NodesSpec::Auto,
        }
    }
}

/// Whether the requirement `n` can be met from the node set `t`.
pub open spec fn nodes_fit(n: NodesSpec, t: Set<usize>) -> bool {
    match n {
        NodesSpec::Auto => t.len() > 0,
        NodesSpec::Select(s) => s.subset_of(t),
        NodesSpec::Use(k) => k <= t.len(),
    }
}

/// Whether a requirement asks for nothing.
pub open spec fn nodes_zero(n: NodesSpec) -> bool {
    match n {
        NodesSpec::Select(s) => s.len() == 0,
        NodesSpec::Use(k) => k == 0,
        NodesSpec::Auto => false,
    }
}

/// The partial order on node requirements: `Auto` lies below anything that
/// is not empty, `Select` below `Select` by inclusion, `Use(n)` below a
/// `Select` of at least `n` nodes and below `Use(m)` for `m ≥ n`; no other
/// pair is ordered.
pub open spec fn nodes_le(a: NodesSpec, b: NodesSpec) -> bool {
    match a {
        NodesSpec::Auto => !nodes_zero(b),
        NodesSpec::Select(s) => match b {
            NodesSpec::Select(t) => s.subset_of(t),
            _ => false,
        },
        NodesSpec::Use(n) => match b {
            NodesSpec::Select(t) => n <= t.len(),
            NodesSpec::Use(m) => n <= m,
            NodesSpec::Auto => false,
        },
    }
}

/// The nodes that a requirement names: those of a `Select`, none otherwise.
pub open spec fn named_nodes(n: NodesSpec) -> Set<usize> {
    match n {
        NodesSpec::Select(s) => s,
        _ => Set::empty(),
    }
}

/// The text of a list of nodes: decimal numbers joined by commas.
pub open spec fn joined_decimals(s: Seq<usize>) -> Seq<char>
    decreases s.len(),
{
    if s.len() == 0 {
        Seq::empty()
    } else if s.len() == 1 {
        decimal_digits(s[0] as nat)
    } else {
        joined_decimals(s.drop_last()) + seq![','] + decimal_digits(s.last() as nat)
    }
}

impl Clone for NodesRequirement {
    fn clone(&self) -> (r: Self)
        ensures
            r@ == self@,
    {
        match self {
            NodesRequirement::Select(s) => NodesRequirement::Select(s.clone()),
            NodesRequirement::Use(n) => NodesRequirement::Use(*n),
            NodesRequirement::Auto => NodesRequirement::Auto,
        }
    }
}

impl NodesRequirement {
    /// Whether the requirement asks for no node at all.
    pub fn is_zero(&self) -> (r: bool)
        ensures
            r == nodes_zero(self@),
    {
        match self {
            NodesRequirement::Select(s) => node_count(s) == 0,
            NodesRequirement::Use(n) => *n == 0,
            NodesRequirement::Auto => false,
        }
    }

    /// Whether the requirement can be met from the nodes `t`.
    pub fn fits(&self, t: &Vec<usize>) -> (r: bool)
        ensures
            r == nodes_fit(self@, t@.to_set()),
    {
        match self {
            NodesRequirement::Auto => node_count(t) > 0,
            NodesRequirement::Use(n) => *n <= node_count(t),
            NodesRequirement::Select(s) => is_subset(s, t),
        }
    }

    /// `self ≤ other` in the partial order of node requirements.
    pub fn is_le(&self, other: &NodesRequirement) -> (r: bool)
        ensures
            r == nodes_le(self@, other@),
    {
        match self {
            NodesRequirement::Auto => !other.is_zero(),
            NodesRequirement::Select(s) => match other {
                NodesRequirement::Select(t) => is_subset(s, t),
                _ => false,
            },
            NodesRequirement::Use(n) => match other {
                NodesRequirement::Select(t) => *n <= node_count(t),
                NodesRequirement::Use(m) => *n <= *m,
                NodesRequirement::Auto => false,
            },
        }
    }

    /// The nodes of a `Select` as ascending decimal numbers joined by commas
    /// (the form of cgroup cpuset files); `None` for another requirement or
    /// for an empty selection.
    pub fn to_string(&self) -> (r: Option<String>)
        ensures
            r is Some <==> (self is Select && named_nodes(self@).len() > 0),
            r matches Some(text) ==> exists|s: Seq<usize>|
                strictly_increasing(s) && s.to_set() == named_nodes(self@) && text@
                    == joined_decimals(s),
    {
        match self {
            NodesRequirement::Select(set) => {
                let s = sorted_nodes(set);
                proof {
                    crate::nodes::lemma_increasing_len(s@);
                }
                if s.len() == 0 {
                    return None;
                }
                let mut text = decimal(s[0]);
                let mut i: usize = 1;
                while i < s.len()
                    invariant
                        1 <= i <= s.len(),
                        text@ == joined_decimals(s@.take(i as int)),
                    decreases s.len() - i,
                {
                    let d = decimal(s[i]);
                    proof {
                        reveal_strlit(",");
                        let t = s@.take(i + 1);
                        assert(t.drop_last() == s@.take(i as int));
                    }
                    text.append(",");
                    text.append(d.as_str());
                    i = i + 1;
                }
                assert(s@.take(s@.len() as int) == s@);
                Some(text)
            },
            _ => None,
        }
    }

    /// The nodes of a `Select`.
    pub fn take_set(&self) -> (r: &Vec<usize>)
        requires
            self is Select,
        ensures
            r@.to_set() == named_nodes(self@),
    {
        match self {
            NodesRequirement::Select(set) => set,
            _ => unreached(),
        }
    }
}

/// A requirement lies below the selection `T` exactly when it is `Auto` and
/// `T` is not empty, a `Select` of a subset of `T`, or a `Use` of at most
/// `|T|` nodes; that is, when it can be met from `T`.
pub proof fn lemma_nodes_le_select(n: NodesSpec, t: Set<usize>)
    ensures
        nodes_le(n, NodesSpec::Select(t)) <==> ((n is Auto && t.len() > 0) || (n matches NodesSpec::Select(s) && s.subset_of(t)) || (n matches NodesSpec::Use(k) && k <= t.len())),
        nodes_le(n, NodesSpec::Select(t)) <==> nodes_fit(n, t),
{
}

// ---------------------------------------------------------------------------
// Requirements and providers
// ---------------------------------------------------------------------------
/// What a job asks for.
pub struct ResourcesRequirement {
    pub cpus: NodesRequirement,
    pub mems: NodesRequirement,
    pub countables: Countables,
    pub properties: Properties,
}

/// What a host offers.
pub struct ResourcesProvider {
    pub cpus: Vec<usize>,
    pub mems: Vec<usize>,
    pub countables: Countables,
    pub properties: Properties,
}

/// The meaning of a requirement.
pub struct RequirementSpec {
    pub cpus: NodesSpec,
    pub mems: NodesSpec,
    pub countables: Map<Seq<char>, usize>,
    pub properties: Map<Seq<char>, Seq<char>>,
}

/// The meaning of a provider.
pub struct ProviderSpec {
    pub cpus: Set<usize>,
    pub mems: Set<usize>,
    pub countables: Map<Seq<char>, usize>,
    pub properties: Map<Seq<char>, Seq<char>>,
}

impl View for ResourcesRequirement {
    type V = RequirementSpec;

    open spec fn view(&self) -> RequirementSpec {
        RequirementSpec {
            cpus: self.cpus@,
            mems: self.mems@,
            countables: self.countables@,
            properties: self.properties@,
        }
    }
}

impl View for ResourcesProvider {
    type V = ProviderSpec;

    open spec fn view(&self) -> ProviderSpec {
        ProviderSpec {
            cpus: self.cpus@.to_set(),
            mems: self.mems@.to_set(),
            countables: self.countables@,
            properties: self.properties@,
        }
    }
}

/// Whether requirement `a` lies below requirement `b` on every axis.
pub open spec fn requirement_le(a: RequirementSpec, b: RequirementSpec) -> bool {
    &&& nodes_le(a.cpus, b.cpus)
    &&& nodes_le(a.mems, b.mems)
    &&& countables_le(a.countables, b.countables)
    &&& properties_le(a.properties, b.properties)
}

/// Whether provider `p` accepts requirement `r`, memory nodes aside.
pub open spec fn accepts(p: ProviderSpec, r: RequirementSpec) -> bool {
    &&& nodes_fit(r.cpus, p.cpus)
    &&& countables_le(r.countables, p.countables)
    &&& properties_le(r.properties, p.properties)
}

/// Whether provider `p` accepts requirement `r`, memory nodes included.
pub open spec fn accepts_exclusive(p: ProviderSpec, r: RequirementSpec) -> bool {
    nodes_fit(r.mems, p.mems) && accepts(p, r)
}

/// Provider `a` offers no more than provider `b` on every axis.
pub open spec fn provider_le(a: ProviderSpec, b: ProviderSpec) -> bool {
    &&& a.cpus.subset_of(b.cpus)
    &&& a.mems.subset_of(b.mems)
    &&& countables_le(a.countables, b.countables)
    &&& properties_le(a.properties, b.properties)
}

impl Clone for ResourcesRequirement {
    fn clone(&self) -> (r: Self)
        ensures
            r@ == self@,
    {
        ResourcesRequirement {
            cpus: self.cpus.clone(),
            mems: self.mems.clone(),
            countables: self.countables.clone(),
            properties: self.properties.clone(),
        }
    }
}

impl Clone for ResourcesProvider {
    fn clone(&self) -> (r: Self)
        ensures
            r@ == self@,
    {
        ResourcesProvider {
            cpus: self.cpus.clone(),
            mems: self.mems.clone(),
            countables: self.countables.clone(),
            properties: self.properties.clone(),
        }
    }
}

impl ResourcesRequirement {
    /// `self ≤ other` on every axis.
    pub fn is_le(&self, other: &ResourcesRequirement) -> (r: bool)
        ensures
            r == requirement_le(self@, other@),
    {
        self.cpus.is_le(&other.cpus) && self.mems.is_le(&other.mems) && self.countables.is_le(
            &other.countables,
        ) && self.properties.is_le(&other.properties)
    }
}

impl ResourcesProvider {
    /// Whether the requirement's CPUs, countables and properties are all
    /// available here.
    pub fn acceptable(&self, requirement: &ResourcesRequirement) -> (r: bool)
        ensures
            r == accepts(self@, requirement@),
    {
        self.cpus_acceptable(&requirement.cpus) && self.countables_acceptable(
            &requirement.countables,
        ) && self.properties_acceptable(&requirement.properties)
    }

    /// Like `acceptable`, and the requirement's memory nodes are available too.
    pub fn execlusive_mem_acceptable(&self, requirement: &ResourcesRequirement) -> (r: bool)
        ensures
            r == accepts_exclusive(self@, requirement@),
    {
        self.mems_acceptable(&requirement.mems) && self.acceptable(requirement)
    }

    fn cpus_acceptable(&self, requirement: &NodesRequirement) -> (r: bool)
        ensures
            r == nodes_fit(requirement@, self.cpus@.to_set()),
    {
        requirement.fits(&self.cpus)
    }

    fn mems_acceptable(&self, requirement: &NodesRequirement) -> (r: bool)
        ensures
            r == nodes_fit(requirement@, self.mems@.to_set()),
    {
        requirement.fits(&self.mems)
    }

    fn countables_acceptable(&self, requirement: &Countables) -> (r: bool)
        ensures
            r == countables_le(requirement@, self.countables@),
    {
        requirement.is_le(&self.countables)
    }

    fn properties_acceptable(&self, requirement: &Properties) -> (r: bool)
        ensures
            r == properties_le(requirement@, self.properties@),
    {
        requirement.is_le(&self.properties)
    }
}

/// Acceptance survives weakening the requirement: deleting countables, or
/// removing nodes from a CPU selection.
pub proof fn lemma_acceptable_weaken(p: ProviderSpec, r: RequirementSpec, r2: RequirementSpec)
    requires
        accepts(p, r),
        r2.mems == r.mems,
        r2.properties == r.properties,
        r2.countables.submap_of(r.countables),
        r2.cpus == r.cpus || (r.cpus is Select && r2.cpus is Select && r2.cpus->Select_0.subset_of(
            r.cpus->Select_0,
        )),
    ensures
        accepts(p, r2),
{
    assert forall|k: Seq<char>| #[trigger] r2.countables.contains_key(k) implies r2.countables[k]
        <= count_of(p.countables, k) by {
        assert(r.countables.contains_key(k));
    }
}

} // verus!
