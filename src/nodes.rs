//! Sets of node indices (CPUs or memory nodes), held as vectors whose
//! meaning is the set of their elements: order and repetition do not matter.
use vstd::prelude::*;

verus! {

/// The elements of `s` come in strictly ascending order.
pub open spec fn strictly_increasing(s: Seq<usize>) -> bool {
    forall|i: int, j: int| 0 <= i < j < s.len() ==> s[i] < s[j]
}

/// A strictly ascending sequence has no repeated element, so it has as many
/// elements as the set it lists.
pub proof fn lemma_increasing_len(s: Seq<usize>)
    requires
        strictly_increasing(s),
    ensures
        s.no_duplicates(),
        s.to_set().len() == s.len(),
        s.to_set().finite(),
{
    assert(s.no_duplicates()) by {
        assert forall|i: int, j: int| 0 <= i < s.len() && 0 <= j < s.len() && i != j implies s[i]
            != s[j] by {
            if i < j {
                assert(s[i] < s[j]);
            } else {
                assert(s[j] < s[i]);
            }
        }
    }
    s.unique_seq_to_set();
    vstd::seq_lib::seq_to_set_is_finite(s);
}

/// Whether `x` is one of the nodes of `s`.
pub fn contains_node(s: &Vec<usize>, x: usize) -> (r: bool)
    ensures
        r == s@.to_set().contains(x),
{
    let mut i: usize = 0;
    while i < s.len()
        invariant
            0 <= i <= s.len(),
            forall|j: int| 0 <= j < i ==> s@[j] != x,
        decreases s.len() - i,
    {
        if s[i] == x {
            return true;
        }
        i = i + 1;
    }
    false
}

/// Whether every node of `a` is a node of `b`.
pub fn is_subset(a: &Vec<usize>, b: &Vec<usize>) -> (r: bool)
    ensures
        r == a@.to_set().subset_of(b@.to_set()),
{
    let mut i: usize = 0;
    while i < a.len()
        invariant
            0 <= i <= a.len(),
            forall|j: int| 0 <= j < i ==> b@.contains(#[trigger] a@[j]),
        decreases a.len() - i,
    {
        if !contains_node(b, a[i]) {
            assert(a@.to_set().contains(a@[i as int]));
            return false;
        }
        i = i + 1;
    }
    proof {
        assert forall|x: usize| a@.to_set().contains(x) implies b@.to_set().contains(x) by {
            let j = choose|j: int| 0 <= j < a@.len() && a@[j] == x;
            assert(b@.contains(a@[j]));
        }
    }
    true
}

/// The nodes of `a` in ascending order, each once.
pub fn sorted_nodes(a: &Vec<usize>) -> (r: Vec<usize>)
    ensures
        strictly_increasing(r@),
        r@.to_set() == a@.to_set(),
{
    let mut out: Vec<usize> = Vec::new();
    let mut i: usize = 0;
    while i < a.len()
        invariant
            0 <= i <= a.len(),
            strictly_increasing(out@),
            out@.to_set() == a@.take(i as int).to_set(),
        decreases a.len() - i,
    {
        let x = a[i];
        assert(a@.take(i + 1) == a@.take(i as int).push(x));
        if !contains_node(&out, x) {
            let mut p: usize = 0;
            while p < out.len() && out[p] < x
                invariant
                    0 <= p <= out.len(),
                    forall|j: int| 0 <= j < p ==> out@[j] < x,
                decreases out.len() - p,
            {
                p = p + 1;
            }
            proof {
                assert forall|j: int| p <= j < out@.len() implies out@[j] > x by {
                    assert(out@[p as int] >= x);
                    assert(out@[p as int] != x) by {
                        assert(out@.to_set().contains(out@[p as int]));
                    }
                    if j > p {
                        assert(out@[p as int] < out@[j]);
                    }
                }
            }
            let ghost before = out@;
            out.insert(p, x);
            proof {
                assert(out@ == before.insert(p as int, x));
                assert(strictly_increasing(out@)) by {
                    assert forall|j: int, k: int| 0 <= j < k < out@.len() implies out@[j]
                        < out@[k] by {
                        if k < p {
                            assert(before[j] < before[k]);
                        } else if k == p {
                            assert(before[j] < x);
                        } else if j < p {
                            assert(before[j] < x);
                            assert(before[k - 1] > x);
                        } else if j == p {
                            assert(before[k - 1] > x);
                        } else {
                            assert(before[j - 1] < before[k - 1]);
                        }
                    }
                }
                assert(out@.to_set() == a@.take(i + 1).to_set()) by {
                    assert forall|y: usize| out@.to_set().contains(y) <==> a@.take(
                        i + 1,
                    ).to_set().contains(y) by {
                        if out@.to_set().contains(y) {
                            let k = choose|k: int| 0 <= k < out@.len() && out@[k] == y;
                            if k < p {
                                assert(before.to_set().contains(before[k]));
                            } else if k > p {
                                assert(before.to_set().contains(before[k - 1]));
                            }
                            if y != x {
                                assert(a@.take(i as int).to_set().contains(y));
                            }
                            assert(a@.take(i + 1)[i as int] == x);
                        }
                        if a@.take(i + 1).to_set().contains(y) {
                            if y == x {
                                assert(out@[p as int] == x);
                            } else {
                                let k = choose|k: int| 0 <= k < i + 1 && #[trigger] a@.take(i + 1)[k] == y;
                                assert(a@.take(i as int)[k] == y);
                                assert(before.to_set().contains(y));
                                let m = choose|m: int| 0 <= m < before.len() && before[m] == y;
                                if m < p {
                                    assert(out@[m] == y);
                                } else {
                                    assert(out@[m + 1] == y);
                                }
                            }
                        }
                    }
                    assert(out@.to_set() =~= a@.take(i + 1).to_set());
                }
            }
        } else {
            proof {
                assert(out@.to_set() =~= a@.take(i + 1).to_set()) by {
                    assert forall|y: usize| a@.take(i + 1).to_set().contains(y) implies out@.to_set().contains(y) by {
                        let k = choose|k: int| 0 <= k < i + 1 && #[trigger] a@.take(i + 1)[k] == y;
                        if k < i {
                            assert(a@.take(i as int)[k] == y);
                        }
                    }
                    assert forall|y: usize| out@.to_set().contains(y) implies a@.take(i + 1).to_set().contains(y) by {
                        assert(a@.take(i as int).to_set().contains(y));
                        let k = choose|k: int| 0 <= k < i && #[trigger] a@.take(i as int)[k] == y;
                        assert(a@.take(i + 1)[k] == y);
                    }
                }
            }
        }
        i = i + 1;
    }
    assert(a@.take(a@.len() as int) == a@);
    out
}

/// The number of distinct nodes of `a`.
pub fn node_count(a: &Vec<usize>) -> (r: usize)
    ensures
        r == a@.to_set().len(),
{
    let s = sorted_nodes(a);
    proof {
        lemma_increasing_len(s@);
    }
    s.len()
}

/// The nodes of `a` that are not nodes of `b`.
pub fn difference(a: &Vec<usize>, b: &Vec<usize>) -> (r: Vec<usize>)
    ensures
        r@.to_set() == a@.to_set().difference(b@.to_set()),
{
    let mut out: Vec<usize> = Vec::new();
    let mut i: usize = 0;
    while i < a.len()
        invariant
            0 <= i <= a.len(),
            out@.to_set() == a@.take(i as int).to_set().difference(b@.to_set()),
        decreases a.len() - i,
    {
        let x = a[i];
        let ghost before = out@;
        if !contains_node(b, x) {
            out.push(x);
        }
        proof {
            let t = a@.take(i + 1);
            assert(t == a@.take(i as int).push(x));
            assert forall|y: usize| out@.to_set().contains(y) <==> t.to_set().difference(
                b@.to_set(),
            ).contains(y) by {
                if out@.to_set().contains(y) {
                    let k = choose|k: int| 0 <= k < out@.len() && out@[k] == y;
                    if k < before.len() {
                        assert(before.to_set().contains(y));
                        let m = choose|m: int| 0 <= m < i && #[trigger] a@.take(i as int)[m] == y;
                        assert(t[m] == y);
                    } else {
                        assert(t[i as int] == y);
                    }
                }
                if t.to_set().difference(b@.to_set()).contains(y) {
                    let m = choose|m: int| 0 <= m < i + 1 && t[m] == y;
                    if m < i {
                        assert(a@.take(i as int)[m] == y);
                        assert(before.to_set().contains(y));
                        let k = choose|k: int| 0 <= k < before.len() && before[k] == y;
                        assert(out@[k] == y);
                    } else {
                        assert(out@[before.len() as int] == y);
                    }
                }
            }
            assert(out@.to_set() =~= t.to_set().difference(b@.to_set()));
        }
        i = i + 1;
    }
    assert(a@.take(a@.len() as int) == a@);
    out
}

/// The `n` smallest nodes of `a` in ascending order, or all of them where
/// `a` has fewer.
pub fn first_nodes(a: &Vec<usize>, n: usize) -> (r: Vec<usize>)
    ensures
        strictly_increasing(r@),
        r@.to_set().subset_of(a@.to_set()),
        r@.len() == if n <= a@.to_set().len() { n as nat } else { a@.to_set().len() },
        forall|x: usize, y: usize|
            a@.to_set().contains(x) && !r@.to_set().contains(x) && r@.to_set().contains(y) ==> y
                < x,
{
    let s = sorted_nodes(a);
    proof {
        lemma_increasing_len(s@);
    }
    let mut out: Vec<usize> = Vec::new();
    let mut i: usize = 0;
    while i < s.len() && i < n
        invariant
            0 <= i <= s.len(),
            i <= n,
            out@ == s@.take(i as int),
        decreases s.len() - i,
    {
        out.push(s[i]);
        assert(s@.take(i + 1) == s@.take(i as int).push(s@[i as int]));
        i = i + 1;
    }
    proof {
        assert forall|x: usize, y: usize|
            a@.to_set().contains(x) && !out@.to_set().contains(x) && out@.to_set().contains(
                y,
            ) implies y < x by {
            let k = choose|k: int| 0 <= k < s@.len() && s@[k] == x;
            let m = choose|m: int| 0 <= m < out@.len() && out@[m] == y;
            if k < i {
                assert(out@[k] == x);
            }
            assert(s@[m] == y);
        }
        assert forall|y: usize| out@.to_set().contains(y) implies a@.to_set().contains(y) by {
            let m = choose|m: int| 0 <= m < out@.len() && out@[m] == y;
            assert(s@[m] == y);
            assert(s@.to_set().contains(y));
        }
    }
    out
}

} // verus!
