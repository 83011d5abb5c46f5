//! The backtracking search for chains of pairwise disjoint masks.
use std::collections::HashMap;
use vstd::prelude::*;
use crate::graph::{canonical_graph, intersect_sorted, is_neighbor, is_neighbor_list};
use crate::maskset::{lemma_sorted_unique, strictly_sorted};

verus! {

broadcast use vstd::std_specs::hash::group_hash_axioms;

/// Masks of the set, in strictly ascending order, no two sharing a letter.
pub open spec fn is_chain(masks: Seq<u32>, c: Seq<u32>) -> bool {
    &&& forall|i: int| 0 <= i < c.len() ==> masks.contains(#[trigger] c[i])
    &&& forall|i: int, j: int|
        0 <= i < j < c.len() ==> #[trigger] c[i] < #[trigger] c[j] && c[i] & c[j] == 0
}

/// A result of the search for `n` masks: a chain of exactly `n >= 1` masks.
pub open spec fn is_combination(masks: Seq<u32>, c: Seq<u32>, n: nat) -> bool {
    &&& n > 0
    &&& c.len() == n
    &&& is_chain(masks, c)
}

/// `c` is a combination of `n` masks that begins with `m`.
pub open spec fn extends(masks: Seq<u32>, n: nat, m: Seq<u32>, c: Seq<u32>) -> bool {
    &&& is_combination(masks, c, n)
    &&& m.len() <= c.len()
    &&& c.take(m.len() as int) == m
}

/// `c` stands in `found` at a position in `lo .. hi`.
pub open spec fn found_in(found: Seq<Vec<u32>>, lo: int, hi: int, c: Seq<u32>) -> bool {
    exists|i: int| lo <= i < hi && #[trigger] found[i]@ == c
}

/// No combination stands twice in `found` between `lo` and `hi`.
pub open spec fn no_repeats(found: Seq<Vec<u32>>, lo: int, hi: int) -> bool {
    forall|i: int, j: int| lo <= i < j < hi ==> #[trigger] found[i]@ != #[trigger] found[j]@
}

/// The candidate pool of a partial chain `m`: the masks of the set, in
/// ascending order, that may still follow `m`.
pub open spec fn is_pool(masks: Seq<u32>, m: Seq<u32>, pool: Seq<u32>) -> bool {
    &&& strictly_sorted(pool)
    &&& forall|x: u32| #[trigger] pool.contains(x) <==> {
        &&& masks.contains(x)
        &&& m.last() < x
        &&& forall|k: int| 0 <= k < m.len() ==> #[trigger] m[k] & x == 0
    }
}

/// Appends to `found` every combination of `target` masks that begins with
/// `members`, each once, and gives `members` back as it was.
fn backtrack(
    Ghost(masks): Ghost<Seq<u32>>,
    graph: &HashMap<u32, Vec<u32>>,
    target: usize,
    members: &mut Vec<u32>,
    candidates: &Vec<u32>,
    found: &mut Vec<Vec<u32>>,
)
    requires
        canonical_graph(masks, graph@),
        is_chain(masks, old(members)@),
        1 <= old(members).len() <= target,
        is_pool(masks, old(members)@, candidates@),
    ensures
        final(members)@ == old(members)@,
        old(found).len() <= final(found).len(),
        forall|i: int| 0 <= i < old(found).len() ==> #[trigger] final(found)@[i] == old(found)@[i],
        forall|c: Seq<u32>|
            found_in(final(found)@, old(found).len() as int, final(found).len() as int, c)
                <==> extends(masks, target as nat, old(members)@, c),
        no_repeats(final(found)@, old(found).len() as int, final(found).len() as int),
    decreases target - old(members).len(),
{
    let ghost m = members@;
    let ghost f0 = found.len() as int;
    if members.len() == target {
        let ghost fs = found@;
        found.push(members.clone());
        proof {
            assert(found@ =~= fs.push(found@[f0]));
            assert forall|c: Seq<u32>| found_in(found@, f0, found.len() as int, c) <==> extends(
                masks,
                target as nat,
                m,
                c,
            ) by {
                if extends(masks, target as nat, m, c) {
                    assert(c =~= c.take(m.len() as int));
                    assert(found@[f0]@ == c);
                }
                if found_in(found@, f0, found.len() as int, c) {
                    assert(found@[f0]@ == c);
                    assert(m.take(m.len() as int) =~= m);
                }
            }
        }
        return;
    }
    let mut k: usize = 0;
    while k < candidates.len()
        invariant
            canonical_graph(masks, graph@),
            is_chain(masks, m),
            1 <= m.len() < target,
            is_pool(masks, m, candidates@),
            members@ == m,
            m == old(members)@,
            k <= candidates.len(),
            f0 <= found.len(),
            forall|i: int| 0 <= i < f0 ==> #[trigger] found@[i] == old(found)@[i],
            f0 == old(found).len(),
            forall|c: Seq<u32>|
                found_in(found@, f0, found.len() as int, c) <==> (extends(
                    masks,
                    target as nat,
                    m,
                    c,
                ) && exists|t: int| 0 <= t < k && #[trigger] candidates@[t] == c[m.len() as int]),
            no_repeats(found@, f0, found.len() as int),
        decreases candidates.len() - k,
    {
        let n = candidates[k];
        let ghost f1 = found.len() as int;
        let ghost fb = found@;
        // What the results so far are, as of the start of this step.
        assert(forall|c: Seq<u32>| found_in(fb, f0, f1, c) ==> extends(masks, target as nat, m, c));
        assert(forall|c: Seq<u32>| found_in(fb, f0, f1, c) ==> exists|t: int| 0 <= t < k && #[trigger] candidates@[t] == c[m.len() as int]);
        assert(candidates@.contains(n));
        let ghost m1 = m.push(n);
        match graph.get(&n) {
            Some(l) => {
                let next = intersect_sorted(candidates, l);
                members.push(n);
                proof {
                    assert(members@ == m1);
                    assert(is_neighbor_list(masks, n, l@));
                    assert(is_chain(masks, m1)) by {
                        assert forall|i: int, j: int| 0 <= i < j < m1.len() implies m1[i] < m1[j]
                            && m1[i] & m1[j] == 0 by {
                            if j == m.len() {
                                assert(m1[i] == m[i] && m1[j] == n);
                                assert(m[i] & n == 0);
                                assert(m.last() == m[m.len() - 1]);
                                if i < m.len() - 1 {
                                    assert(m[i] < m[m.len() - 1]);
                                }
                            } else {
                                assert(m1[i] == m[i] && m1[j] == m[j]);
                            }
                        }
                        assert forall|i: int| 0 <= i < m1.len() implies masks.contains(#[trigger] m1[i]) by {
                            if i < m.len() {
                                assert(m1[i] == m[i]);
                            }
                        }
                    }
                    assert forall|x: u32| #[trigger] next@.contains(x) <==> {
                        &&& masks.contains(x)
                        &&& m1.last() < x
                        &&& forall|k2: int| 0 <= k2 < m1.len() ==> #[trigger] m1[k2] & x == 0
                    } by {
                        if next@.contains(x) {
                            assert(candidates@.contains(x) && l@.contains(x));
                            assert forall|k2: int| 0 <= k2 < m1.len() implies #[trigger] m1[k2] & x == 0 by {
                                if k2 < m.len() {
                                    assert(m1[k2] == m[k2]);
                                    assert(m[k2] & x == 0);
                                }
                            }
                        }
                        if masks.contains(x) && m1.last() < x && forall|k2: int|
                            0 <= k2 < m1.len() ==> #[trigger] m1[k2] & x == 0 {
                            assert forall|k2: int| 0 <= k2 < m.len() implies #[trigger] m[k2] & x == 0 by {
                                assert(m1[k2] == m[k2]);
                                assert(m1[k2] & x == 0);
                            }
                            assert(m1[m.len() as int] & x == 0);
                            assert(is_neighbor(masks, n, x));
                        }
                    }
                }
                backtrack(Ghost(masks), graph, target, members, &next, found);
                members.pop();
                proof {
                    assert(members@ =~= m);
                }
            },
            None => {
                assert(graph@.contains_key(n));
            },
        }
        k = k + 1;
        proof {
            let f2 = found.len() as int;
            let k0: int = k - 1;
            assert forall|i: int| 0 <= i < f1 implies #[trigger] found@[i] == fb[i] by {}
            assert forall|c: Seq<u32>| found_in(found@, f0, f1, c) <==> found_in(fb, f0, f1, c) by {
                if found_in(found@, f0, f1, c) {
                    let i = choose|i: int| f0 <= i < f1 && #[trigger] found@[i]@ == c;
                    assert(fb[i]@ == c);
                }
                if found_in(fb, f0, f1, c) {
                    let i = choose|i: int| f0 <= i < f1 && #[trigger] fb[i]@ == c;
                    assert(found@[i]@ == c);
                }
            }
            assert forall|c: Seq<u32>| found_in(found@, f0, f2, c) <==> (extends(
                masks,
                target as nat,
                m,
                c,
            ) && exists|t: int| 0 <= t < k && #[trigger] candidates@[t] == c[m.len() as int]) by {
                if found_in(found@, f0, f2, c) {
                    let i = choose|i: int| f0 <= i < f2 && #[trigger] found@[i]@ == c;
                    if i < f1 {
                        assert(found_in(found@, f0, f1, c));
                        assert(found_in(fb, f0, f1, c));
                    } else {
                        assert(found_in(found@, f1, f2, c));
                        assert(extends(masks, target as nat, m1, c));
                        assert(c.take(m.len() as int) =~= m1.take(m.len() as int));
                        assert(m1.take(m.len() as int) =~= m);
                        assert(c[m.len() as int] == c.take(m1.len() as int)[m.len() as int]);
                        assert(candidates@[k0] == c[m.len() as int]);
                    }
                }
                if extends(masks, target as nat, m, c) && exists|t: int|
                    0 <= t < k && #[trigger] candidates@[t] == c[m.len() as int] {
                    let t = choose|t: int| 0 <= t < k && #[trigger] candidates@[t] == c[m.len() as int];
                    if t < k0 {
                        assert(found_in(found@, f0, f1, c));
                        let i = choose|i: int| f0 <= i < f1 && #[trigger] found@[i]@ == c;
                        assert(found@[i]@ == c);
                    } else {
                        assert(c.take(m1.len() as int) =~= m1) by {
                            assert forall|q: int| 0 <= q < m1.len() implies c.take(m1.len() as int)[q] == m1[q] by {
                                if q < m.len() {
                                    assert(c.take(m.len() as int)[q] == m[q]);
                                }
                            }
                        }
                        assert(extends(masks, target as nat, m1, c));
                        let i = choose|i: int| f1 <= i < f2 && #[trigger] found@[i]@ == c;
                        assert(found@[i]@ == c);
                    }
                }
            }
            assert forall|i: int, j: int| f0 <= i < j < f2 implies #[trigger] found@[i]@ != #[trigger] found@[j]@ by {
                if i < f1 && j >= f1 {
                    let ci = found@[i]@;
                    let cj = found@[j]@;
                    assert(fb[i] == found@[i]);
                    assert(fb[i]@ == ci);
                    assert(found_in(fb, f0, f1, ci));
                    assert(exists|t: int| 0 <= t < k0 && #[trigger] candidates@[t] == ci[m.len() as int]);
                    assert(found_in(found@, f1, f2, cj));
                    assert(extends(masks, target as nat, m1, cj));
                    assert(cj.take(m1.len() as int)[m.len() as int] == m1[m.len() as int]);
                    assert(cj[m.len() as int] == n);
                    let t = choose|t: int| 0 <= t < k0 && #[trigger] candidates@[t] == ci[m.len() as int];
                    assert(candidates@[t] < candidates@[k0]);
                } else if j < f1 {
                    assert(fb[i] == found@[i] && fb[j] == found@[j]);
                }
            }
        }
    }
    proof {
        let f2 = found.len() as int;
        assert forall|c: Seq<u32>| found_in(found@, f0, f2, c) <==> extends(masks, target as nat, m, c) by {
            if extends(masks, target as nat, m, c) {
                let x = c[m.len() as int];
                assert forall|q: int| 0 <= q < m.len() implies #[trigger] m[q] & x == 0 by {
                    assert(c.take(m.len() as int)[q] == c[q]);
                }
                assert(m.last() == c[m.len() - 1]) by {
                    assert(c.take(m.len() as int)[m.len() - 1] == c[m.len() - 1]);
                }
                assert(candidates@.contains(x));
                let t = choose|t: int| 0 <= t < candidates.len() && candidates@[t] == x;
                assert(candidates@[t] == c[m.len() as int]);
            }
        }
    }
}

/// Every combination of `target` masks whose smallest member is
/// `masks[seed]`, each once. The seeds' searches are independent of one
/// another, so they may run side by side.
pub fn search_from_seed(
    masks: &Vec<u32>,
    graph: &HashMap<u32, Vec<u32>>,
    target: usize,
    seed: usize,
) -> (found: Vec<Vec<u32>>)
    requires
        strictly_sorted(masks@),
        canonical_graph(masks@, graph@),
        seed < masks.len(),
    ensures
        forall|c: Seq<u32>| found_in(found@, 0, found.len() as int, c) <==> (is_combination(
            masks@,
            c,
            target as nat,
        ) && c[0] == masks@[seed as int]),
        no_repeats(found@, 0, found.len() as int),
{
    let mut found: Vec<Vec<u32>> = Vec::new();
    if target == 0 {
        return found;
    }
    let b = masks[seed];
    let mut members: Vec<u32> = vec![b];
    assert(members@ =~= seq![b]);
    match graph.get(&b) {
        Some(l) => {
            proof {
                assert(masks@.contains(b));
                assert(is_neighbor_list(masks@, b, l@));
                assert forall|x: u32| #[trigger] l@.contains(x) <==> {
                    &&& masks@.contains(x)
                    &&& members@.last() < x
                    &&& forall|k: int| 0 <= k < members@.len() ==> #[trigger] members@[k] & x == 0
                } by {
                    if masks@.contains(x) && members@.last() < x && forall|k: int|
                        0 <= k < members@.len() ==> #[trigger] members@[k] & x == 0 {
                        assert(members@[0] & x == 0);
                    }
                }
            }
            backtrack(Ghost(masks@), graph, target, &mut members, l, &mut found);
            assert(forall|c: Seq<u32>| found_in(found@, 0, found.len() as int, c) <==> extends(masks@, target as nat, seq![b], c));
        },
        None => {
            assert(graph@.contains_key(b));
        },
    }
    proof {
        assert forall|c: Seq<u32>| extends(masks@, target as nat, seq![b], c) <==> (is_combination(
            masks@,
            c,
            target as nat,
        ) && c[0] == b) by {
            if is_combination(masks@, c, target as nat) && c[0] == b {
                assert(c.take(1) =~= seq![b]);
            }
            if extends(masks@, target as nat, seq![b], c) {
                assert(c.take(1)[0] == c[0]);
            }
        }
    }
    found
}

/// The first member of `c` is one of the first `s` masks of the set.
pub open spec fn starts_within(masks: Seq<u32>, s: int, c: Seq<u32>) -> bool {
    exists|t: int| 0 <= t < s && #[trigger] masks[t] == c[0]
}

/// Every combination of `target` masks of the set, each once: every chain of
/// `target` masks in ascending order that share no letter pairwise.
pub fn search(masks: &Vec<u32>, graph: &HashMap<u32, Vec<u32>>, target: usize) -> (found: Vec<
    Vec<u32>,
>)
    requires
        strictly_sorted(masks@),
        canonical_graph(masks@, graph@),
    ensures
        forall|c: Seq<u32>| found_in(found@, 0, found.len() as int, c) <==> is_combination(
            masks@,
            c,
            target as nat,
        ),
        no_repeats(found@, 0, found.len() as int),
{
    let mut found: Vec<Vec<u32>> = Vec::new();
    let mut s: usize = 0;
    while s < masks.len()
        invariant
            strictly_sorted(masks@),
            canonical_graph(masks@, graph@),
            s <= masks.len(),
            forall|c: Seq<u32>| found_in(found@, 0, found.len() as int, c) <==> (is_combination(
                masks@,
                c,
                target as nat,
            ) && starts_within(masks@, s as int, c)),
            no_repeats(found@, 0, found.len() as int),
        decreases masks.len() - s,
    {
        let part = search_from_seed(masks, graph, target, s);
        let ghost f0 = found@;
        let ghost p = part@;
        let mut part = part;
        found.append(&mut part);
        s = s + 1;
        proof {
            let n0 = f0.len() as int;
            let n1 = found.len() as int;
            assert(found@ =~= f0 + p);
            assert forall|i: int| 0 <= i < n0 implies #[trigger] found@[i] == f0[i] by {}
            assert forall|i: int| n0 <= i < n1 implies #[trigger] found@[i] == p[i - n0] by {}
            assert forall|c: Seq<u32>| found_in(found@, 0, n1, c) <==> (is_combination(
                masks@,
                c,
                target as nat,
            ) && starts_within(masks@, s as int, c)) by {
                if found_in(found@, 0, n1, c) {
                    let i = choose|i: int| 0 <= i < n1 && #[trigger] found@[i]@ == c;
                    if i < n0 {
                        assert(f0[i]@ == c);
                        assert(found_in(f0, 0, n0, c));
                        assert(starts_within(masks@, s - 1, c));
                        let t = choose|t: int| 0 <= t < s - 1 && #[trigger] masks@[t] == c[0];
                        assert(starts_within(masks@, s as int, c));
                    } else {
                        assert(p[i - n0]@ == c);
                        assert(found_in(p, 0, p.len() as int, c));
                        assert(masks@[s - 1] == c[0]);
                        assert(starts_within(masks@, s as int, c));
                    }
                }
                if is_combination(masks@, c, target as nat) && starts_within(masks@, s as int, c) {
                    let t = choose|t: int| 0 <= t < s && #[trigger] masks@[t] == c[0];
                    if t < s - 1 {
                        assert(starts_within(masks@, s - 1, c));
                        assert(found_in(f0, 0, n0, c));
                        let i = choose|i: int| 0 <= i < n0 && #[trigger] f0[i]@ == c;
                        assert(found@[i]@ == c);
                    } else {
                        assert(found_in(p, 0, p.len() as int, c));
                        let i = choose|i: int| 0 <= i < p.len() && #[trigger] p[i]@ == c;
                        assert(found@[i + n0]@ == c);
                    }
                }
            }
            assert forall|i: int, j: int| 0 <= i < j < n1 implies #[trigger] found@[i]@ != #[trigger] found@[j]@ by {
                if i < n0 && j >= n0 {
                    let ci = found@[i]@;
                    let cj = found@[j]@;
                    assert(f0[i]@ == ci);
                    assert(found_in(f0, 0, n0, ci));
                    assert(starts_within(masks@, s - 1, ci));
                    assert(p[j - n0]@ == cj);
                    assert(found_in(p, 0, p.len() as int, cj));
                    let t = choose|t: int| 0 <= t < s - 1 && #[trigger] masks@[t] == ci[0];
                    assert(masks@[t] < masks@[s - 1]);
                } else if j < n0 {
                    assert(f0[i] == found@[i] && f0[j] == found@[j]);
                } else {
                    assert(p[i - n0] == found@[i] && p[j - n0] == found@[j]);
                }
            }
        }
    }
    proof {
        assert forall|c: Seq<u32>| found_in(found@, 0, found.len() as int, c) <==> is_combination(
            masks@,
            c,
            target as nat,
        ) by {
            if is_combination(masks@, c, target as nat) {
                assert(masks@.contains(c[0]));
                let t = choose|t: int| 0 <= t < masks.len() && masks@[t] == c[0];
                assert(0 <= t < s && masks@[t] == c[0]);
                assert(starts_within(masks@, s as int, c));
            }
        }
    }
    found
}

/// No two combinations that the search lists are permutations of one another:
/// any two of them hold different sets of masks.
pub proof fn lemma_no_permutations(masks: Seq<u32>, target: nat, found: Seq<Vec<u32>>)
    requires
        forall|c: Seq<u32>| found_in(found, 0, found.len() as int, c) ==> is_combination(masks, c, target),
        no_repeats(found, 0, found.len() as int),
    ensures
        forall|i: int, j: int|
            0 <= i < j < found.len() ==> (#[trigger] found[i]@).to_set() != (#[trigger] found[j]@).to_set(),
{
    assert forall|i: int, j: int| 0 <= i < j < found.len() implies (#[trigger] found[i]@).to_set() != (
    #[trigger] found[j]@).to_set() by {
        let a = found[i]@;
        let b = found[j]@;
        assert(found_in(found, 0, found.len() as int, a));
        assert(found_in(found, 0, found.len() as int, b));
        assert(is_combination(masks, a, target) && is_combination(masks, b, target));
        assert forall|p: int, q: int| 0 <= p < q < a.len() implies a[p] < a[q] by {
            assert(a[p] < a[q]);
        }
        assert forall|p: int, q: int| 0 <= p < q < b.len() implies b[p] < b[q] by {
            assert(b[p] < b[q]);
        }
        if a.to_set() == b.to_set() {
            assert forall|x: u32| a.contains(x) <==> b.contains(x) by {
                assert(a.to_set().contains(x) == b.to_set().contains(x));
            }
            lemma_sorted_unique(a, b);
        }
    }
}

/// An empty mask set has no combination of any length, so the search over it
/// lists nothing.
pub proof fn lemma_empty_set_has_no_combination(c: Seq<u32>, n: nat)
    ensures
        !is_combination(Seq::<u32>::empty(), c, n),
{
    if is_combination(Seq::<u32>::empty(), c, n) {
        assert(Seq::<u32>::empty().contains(c[0]));
    }
}

/// A combination has no more members than the mask set has masks, so a
/// search for more masks than the set holds lists nothing.
pub proof fn lemma_combination_fits(masks: Seq<u32>, c: Seq<u32>, n: nat)
    requires
        is_combination(masks, c, n),
    ensures
        n <= masks.len(),
{
    assert(c.no_duplicates()) by {
        assert forall|i: int, j: int| 0 <= i < c.len() && 0 <= j < c.len() && i != j implies c[i] != c[j] by {
            if i < j {
                assert(c[i] < c[j]);
            } else {
                assert(c[j] < c[i]);
            }
        }
    }
    c.unique_seq_to_set();
    masks.lemma_cardinality_of_set();
    assert(c.to_set().subset_of(masks.to_set())) by {
        assert forall|x: u32| c.to_set().contains(x) implies masks.to_set().contains(x) by {
            let k = choose|k: int| 0 <= k < c.len() && c[k] == x;
            assert(masks.contains(c[k]));
        }
    }
    vstd::set_lib::lemma_len_subset(c.to_set(), masks.to_set());
}

} // verus!
