//! The neighbor graph: for each mask, the larger masks that share no letter
//! with it, in ascending order.
use std::collections::HashMap;
use vstd::prelude::*;
use crate::maskset::strictly_sorted;

verus! {

broadcast use vstd::std_specs::hash::group_hash_axioms;

/// `y` is a neighbor of `x`: a mask of the set, larger than `x`, sharing no
/// letter with it.
pub open spec fn is_neighbor(masks: Seq<u32>, x: u32, y: u32) -> bool {
    masks.contains(y) && x < y && x & y == 0
}

/// `l` lists the neighbors of `x`, each once, in ascending order.
pub open spec fn is_neighbor_list(masks: Seq<u32>, x: u32, l: Seq<u32>) -> bool {
    &&& strictly_sorted(l)
    &&& forall|y: u32| #[trigger] l.contains(y) <==> is_neighbor(masks, x, y)
}

/// `g` maps each mask of the set, and nothing else, to its neighbor list.
pub open spec fn canonical_graph(masks: Seq<u32>, g: Map<u32, Vec<u32>>) -> bool {
    &&& forall|x: u32| #[trigger] g.contains_key(x) <==> masks.contains(x)
    &&& forall|x: u32| #[trigger] g.contains_key(x) ==> is_neighbor_list(masks, x, g[x]@)
}

/// The values that two ascending sequences have in common, in ascending
/// order, by a single merge pass over both.
pub fn intersect_sorted(a: &Vec<u32>, b: &Vec<u32>) -> (r: Vec<u32>)
    requires
        strictly_sorted(a@),
        strictly_sorted(b@),
    ensures
        strictly_sorted(r@),
        forall|x: u32| #[trigger] r@.contains(x) <==> a@.contains(x) && b@.contains(x),
{
    let mut r: Vec<u32> = Vec::new();
    let mut i: usize = 0;
    let mut j: usize = 0;
    while i < a.len() && j < b.len()
        invariant
            strictly_sorted(a@),
            strictly_sorted(b@),
            i <= a.len(),
            j <= b.len(),
            strictly_sorted(r@),
            forall|x: u32| #[trigger] r@.contains(x) ==> a@.contains(x) && b@.contains(x),
            forall|k: int| 0 <= k < i ==> (b@.contains(#[trigger] a@[k]) ==> r@.contains(a@[k])),
            forall|k: int| 0 <= k < j ==> (a@.contains(#[trigger] b@[k]) ==> r@.contains(b@[k])),
            forall|k: int| 0 <= k < r.len() ==> (i < a.len() ==> #[trigger] r@[k] < a@[i as int]) && (
            j < b.len() ==> r@[k] < b@[j as int]),
        decreases a.len() + b.len() - i - j,
    {
        let x = a[i];
        let y = b[j];
        if x < y {
            proof {
                if b@.contains(x) {
                    let t = choose|t: int| 0 <= t < b.len() && b@[t] == x;
                    if t >= j {
                        if t > j {
                            assert(b@[j as int] < b@[t]);
                        }
                    }
                }
            }
            i = i + 1;
            proof {
                assert forall|k: int| 0 <= k < r.len() && i < a.len() implies #[trigger] r@[k] < a@[i as int] by {
                    assert(a@[i - 1] < a@[i as int]);
                }
            }
        } else if y < x {
            proof {
                if a@.contains(y) {
                    let t = choose|t: int| 0 <= t < a.len() && a@[t] == y;
                    if t >= i {
                        if t > i {
                            assert(a@[i as int] < a@[t]);
                        }
                    }
                }
            }
            j = j + 1;
            proof {
                assert forall|k: int| 0 <= k < r.len() && j < b.len() implies #[trigger] r@[k] < b@[j as int] by {
                    assert(b@[j - 1] < b@[j as int]);
                }
            }
        } else {
            let ghost r0 = r@;
            r.push(x);
            proof {
                assert(r@ =~= r0.push(x));
                assert forall|x2: u32| #[trigger] r@.contains(x2) implies a@.contains(x2) && b@.contains(x2) by {
                    if x2 != x {
                        let k = choose|k: int| 0 <= k < r.len() && r@[k] == x2;
                        assert(r0[k] == x2);
                        assert(r0.contains(x2));
                    } else {
                        assert(a@[i as int] == x);
                        assert(b@[j as int] == x);
                    }
                }
                assert forall|k: int| 0 <= k < i + 1 implies (b@.contains(#[trigger] a@[k]) ==> r@.contains(a@[k])) by {
                    if k < i && b@.contains(a@[k]) {
                        assert(r0.contains(a@[k]));
                        let t = choose|t: int| 0 <= t < r0.len() && r0[t] == a@[k];
                        assert(r@[t] == a@[k]);
                    }
                    if k == i {
                        assert(r@[r0.len() as int] == x);
                    }
                }
                assert forall|k: int| 0 <= k < j + 1 implies (a@.contains(#[trigger] b@[k]) ==> r@.contains(b@[k])) by {
                    if k < j && a@.contains(b@[k]) {
                        assert(r0.contains(b@[k]));
                        let t = choose|t: int| 0 <= t < r0.len() && r0[t] == b@[k];
                        assert(r@[t] == b@[k]);
                    }
                    if k == j {
                        assert(r@[r0.len() as int] == x);
                    }
                }
            }
            i = i + 1;
            j = j + 1;
            proof {
                assert forall|k: int| 0 <= k < r.len() implies (i < a.len() ==> #[trigger] r@[k] < a@[i as int]) && (
                j < b.len() ==> r@[k] < b@[j as int]) by {
                    if i < a.len() {
                        assert(a@[i - 1] < a@[i as int]);
                    }
                    if j < b.len() {
                        assert(b@[j - 1] < b@[j as int]);
                    }
                }
            }
        }
    }
    proof {
        assert forall|x: u32| a@.contains(x) && b@.contains(x) implies #[trigger] r@.contains(x) by {
            if i == a.len() {
                let k = choose|k: int| 0 <= k < a.len() && a@[k] == x;
                assert(b@.contains(a@[k]));
            } else {
                let k = choose|k: int| 0 <= k < b.len() && b@[k] == x;
                assert(a@.contains(b@[k]));
            }
        }
    }
    r
}

/// The neighbor list of `masks[i]`: the later masks that share no letter with
/// it, scanned in order.
fn neighbors_of(masks: &Vec<u32>, i: usize) -> (l: Vec<u32>)
    requires
        strictly_sorted(masks@),
        i < masks.len(),
    ensures
        is_neighbor_list(masks@, masks@[i as int], l@),
{
    let x = masks[i];
    let mut l: Vec<u32> = Vec::new();
    let mut j: usize = i + 1;
    while j < masks.len()
        invariant
            strictly_sorted(masks@),
            i < j <= masks.len(),
            x == masks@[i as int],
            strictly_sorted(l@),
            forall|k: int| 0 <= k < l.len() ==> #[trigger] l@[k] < masks@[j as int] || j == masks.len(),
            forall|y: u32| #[trigger] l@.contains(y) <==> exists|k: int|
                i < k < j && #[trigger] masks@[k] == y && x & y == 0,
        decreases masks.len() - j,
    {
        let y = masks[j];
        let ghost l0 = l@;
        if x & y == 0 {
            l.push(y);
            proof {
                assert(l@ =~= l0.push(y));
                assert forall|z: u32| #[trigger] l@.contains(z) <==> exists|k: int|
                    i < k < j + 1 && #[trigger] masks@[k] == z && x & z == 0 by {
                    if l@.contains(z) && z != y {
                        let t = choose|t: int| 0 <= t < l.len() && l@[t] == z;
                        assert(l0[t] == z);
                        assert(l0.contains(z));
                    }
                    if z == y {
                        assert(l@[l0.len() as int] == y);
                    }
                    if exists|k: int| i < k < j + 1 && #[trigger] masks@[k] == z && x & z == 0 {
                        let k = choose|k: int| i < k < j + 1 && #[trigger] masks@[k] == z && x & z == 0;
                        if k < j {
                            assert(l0.contains(z));
                            let t = choose|t: int| 0 <= t < l0.len() && l0[t] == z;
                            assert(l@[t] == z);
                        }
                    }
                }
            }
        } else {
            proof {
                assert forall|z: u32| #[trigger] l@.contains(z) <==> exists|k: int|
                    i < k < j + 1 && #[trigger] masks@[k] == z && x & z == 0 by {
                    if exists|k: int| i < k < j + 1 && #[trigger] masks@[k] == z && x & z == 0 {
                        let k = choose|k: int| i < k < j + 1 && #[trigger] masks@[k] == z && x & z == 0;
                        assert(k != j);
                    }
                }
            }
        }
        j = j + 1;
        proof {
            assert forall|k: int| 0 <= k < l.len() implies #[trigger] l@[k] < masks@[j as int] || j == masks.len() by {
                if j < masks.len() {
                    assert(masks@[j - 1] < masks@[j as int]);
                    if k == l.len() - 1 && x & y == 0 {
                        assert(l@[k] == y);
                    } else {
                        assert(l@[k] == l0[k]);
                    }
                }
            }
        }
    }
    proof {
        assert forall|y: u32| #[trigger] l@.contains(y) <==> is_neighbor(masks@, x, y) by {
            if is_neighbor(masks@, x, y) {
                let k = choose|k: int| 0 <= k < masks.len() && masks@[k] == y;
                if k <= i {
                    if k < i {
                        assert(masks@[k] < masks@[i as int]);
                    }
                }
                assert(i < k < j && masks@[k] == y && x & y == 0);
            }
            if l@.contains(y) {
                let k = choose|k: int| i < k < j && #[trigger] masks@[k] == y && x & y == 0;
                assert(masks@[i as int] < masks@[k]);
                assert(masks@.contains(y));
            }
        }
    }
    l
}

/// Builds the neighbor graph of an ascending mask set: each mask is mapped to
/// the larger masks that share no letter with it, so that every disjoint pair
/// is recorded once, under its smaller mask.
pub fn build_graph(masks: &Vec<u32>) -> (g: HashMap<u32, Vec<u32>>)
    requires
        strictly_sorted(masks@),
    ensures
        canonical_graph(masks@, g@),
{
    let mut g: HashMap<u32, Vec<u32>> = HashMap::new();
    let mut i: usize = 0;
    while i < masks.len()
        invariant
            strictly_sorted(masks@),
            i <= masks.len(),
            forall|x: u32| #[trigger] g@.contains_key(x) <==> exists|k: int|
                0 <= k < i && #[trigger] masks@[k] == x,
            forall|x: u32| #[trigger] g@.contains_key(x) ==> is_neighbor_list(masks@, x, g@[x]@),
        decreases masks.len() - i,
    {
        let l = neighbors_of(masks, i);
        let ghost g0 = g@;
        g.insert(masks[i], l);
        proof {
            assert forall|x: u32| #[trigger] g@.contains_key(x) <==> exists|k: int|
                0 <= k < i + 1 && #[trigger] masks@[k] == x by {
                if g0.contains_key(x) {
                    let k = choose|k: int| 0 <= k < i && #[trigger] masks@[k] == x;
                    assert(0 <= k < i + 1 && masks@[k] == x);
                }
                if x == masks@[i as int] {
                    assert(0 <= i < i + 1 && masks@[i as int] == x);
                }
            }
        }
        i = i + 1;
    }
    proof {
        assert forall|x: u32| #[trigger] g@.contains_key(x) <==> masks@.contains(x) by {
            if masks@.contains(x) {
                let k = choose|k: int| 0 <= k < masks.len() && masks@[k] == x;
                assert(0 <= k < i && masks@[k] == x);
            }
        }
    }
    g
}

/// In the canonical graph a disjoint pair `x < y` of the set is recorded
/// exactly once: `y` is a neighbor of `x`, and `x` is not a neighbor of `y`.
pub proof fn lemma_pair_recorded_once(masks: Seq<u32>, g: Map<u32, Vec<u32>>, x: u32, y: u32)
    requires
        canonical_graph(masks, g),
        masks.contains(x),
        masks.contains(y),
        x & y == 0,
        x < y,
    ensures
        g.contains_key(x) && g[x]@.contains(y),
        g.contains_key(y) && !g[y]@.contains(x),
{
    assert(g.contains_key(x) && g.contains_key(y));
    assert(is_neighbor_list(masks, x, g[x]@));
    assert(is_neighbor_list(masks, y, g[y]@));
    assert(is_neighbor(masks, x, y));
    assert(!is_neighbor(masks, y, x));
}

} // verus!
