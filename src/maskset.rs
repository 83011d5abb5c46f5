//! The set of distinct letter masks of a dictionary, kept in ascending order.
use vstd::prelude::*;
use crate::letters::{encode_word, lemma_word_encoding_total, popcount, word_encoding, bytes_of, WORD_LEN};

verus! {

/// Each element is smaller than every element after it: ascending, with no
/// value twice.
pub open spec fn strictly_sorted(s: Seq<u32>) -> bool {
    forall|i: int, j: int| 0 <= i < j < s.len() ==> s[i] < s[j]
}

/// Two ascending sequences that hold the same values are the same sequence.
pub proof fn lemma_sorted_unique(a: Seq<u32>, b: Seq<u32>)
    requires
        strictly_sorted(a),
        strictly_sorted(b),
        forall|x: u32| a.contains(x) <==> b.contains(x),
    ensures
        a == b,
    decreases a.len() + b.len(),
{
    if a.len() == 0 || b.len() == 0 {
        if a.len() > 0 {
            assert(a.contains(a[0]));
        }
        if b.len() > 0 {
            assert(b.contains(b[0]));
        }
        assert(a =~= b);
    } else {
        assert(a.contains(a[0]) && b.contains(b[0]));
        let ka = choose|k: int| 0 <= k < b.len() && b[k] == a[0];
        let kb = choose|k: int| 0 <= k < a.len() && a[k] == b[0];
        if ka > 0 {
            assert(b[0] < b[ka]);
        }
        if kb > 0 {
            assert(a[0] < a[kb]);
        }
        assert(a[0] == b[0]);
        let a1 = a.drop_first();
        let b1 = b.drop_first();
        assert forall|x: u32| a1.contains(x) <==> b1.contains(x) by {
            if a1.contains(x) {
                let k = choose|k: int| 0 <= k < a1.len() && a1[k] == x;
                assert(a[k + 1] == x && a[0] < a[k + 1]);
                assert(a.contains(x));
                let t = choose|t: int| 0 <= t < b.len() && b[t] == x;
                assert(t != 0);
                assert(b1[t - 1] == x);
            }
            if b1.contains(x) {
                let k = choose|k: int| 0 <= k < b1.len() && b1[k] == x;
                assert(b[k + 1] == x && b[0] < b[k + 1]);
                assert(b.contains(x));
                let t = choose|t: int| 0 <= t < a.len() && a[t] == x;
                assert(t != 0);
                assert(a1[t - 1] == x);
            }
        }
        lemma_sorted_unique(a1, b1);
        assert(a =~= seq![a[0]] + a1);
        assert(b =~= seq![b[0]] + b1);
    }
}

/// Some word of `words` encodes to `m`.
pub open spec fn in_dictionary(words: Seq<String>, m: u32) -> bool {
    exists|i: int| 0 <= i < words.len() && #[trigger] word_encoding(words[i]@) == Some(m)
}

/// Adds `x` to an ascending sequence at its place, unless it is there.
fn insert_sorted(v: &mut Vec<u32>, x: u32)
    requires
        strictly_sorted(old(v)@),
    ensures
        strictly_sorted(final(v)@),
        forall|y: u32| #[trigger] final(v)@.contains(y) <==> old(v)@.contains(y) || y == x,
{
    let mut i: usize = 0;
    while i < v.len() && v[i] < x
        invariant
            i <= v.len(),
            forall|k: int| 0 <= k < i ==> #[trigger] v@[k] < x,
        decreases v.len() - i,
    {
        i = i + 1;
    }
    if i < v.len() && v[i] == x {
        assert(v@.contains(v@[i as int]));
        return;
    }
    let ghost s0 = v@;
    v.insert(i, x);
    proof {
        s0.insert_ensures(i as int, x);
        let s1 = v@;
        assert forall|a: int, b: int| 0 <= a < b < s1.len() implies s1[a] < s1[b] by {
            if b < i {
                assert(s1[a] == s0[a] && s1[b] == s0[b]);
            } else if b == i {
                assert(s1[a] == s0[a]);
            } else if a < i {
                assert(s1[a] == s0[a] && s1[b] == s0[b - 1]);
                assert(s0[a] < x);
                assert(x <= s0[i as int]);
                if b - 1 > i {
                    assert(s0[i as int] < s0[b - 1]);
                }
            } else if a == i {
                assert(s1[b] == s0[b - 1]);
                assert(x <= s0[i as int] && x != s0[i as int]);
                if b - 1 > i {
                    assert(s0[i as int] < s0[b - 1]);
                }
            } else {
                assert(s1[a] == s0[a - 1] && s1[b] == s0[b - 1]);
            }
        }
        assert forall|y: u32| #[trigger] s1.contains(y) <==> s0.contains(y) || y == x by {
            if s1.contains(y) {
                let k = choose|k: int| 0 <= k < s1.len() && s1[k] == y;
                if k < i {
                    assert(s0[k] == y);
                } else if k > i {
                    assert(s0[k - 1] == y);
                }
            }
            if s0.contains(y) {
                let k = choose|k: int| 0 <= k < s0.len() && s0[k] == y;
                if k < i {
                    assert(s1[k] == y);
                } else {
                    assert(s1[k + 1] == y);
                }
            }
            if y == x {
                assert(s1[i as int] == x);
            }
        }
    }
}

/// Reduces a dictionary to its mask set: the distinct masks of its words that
/// encode, in ascending order. Words of the wrong length and words that do
/// not encode are passed over; anagrams share one mask.
pub fn reduce(words: &Vec<String>) -> (masks: Vec<u32>)
    ensures
        strictly_sorted(masks@),
        forall|m: u32| #[trigger] masks@.contains(m) <==> in_dictionary(words@, m),
        forall|m: u32| #[trigger] masks@.contains(m) ==> popcount(m) == WORD_LEN,
{
    let mut masks: Vec<u32> = Vec::new();
    let mut i: usize = 0;
    while i < words.len()
        invariant
            i <= words.len(),
            strictly_sorted(masks@),
            forall|m: u32| #[trigger] masks@.contains(m) <==> exists|k: int|
                0 <= k < i && #[trigger] word_encoding(words@[k]@) == Some(m),
        decreases words.len() - i,
    {
        let r = encode_word(words[i].as_str());
        if let Some(m) = r {
            insert_sorted(&mut masks, m);
        }
        proof {
            assert forall|m: u32| #[trigger] masks@.contains(m) <==> exists|k: int|
                0 <= k < i + 1 && #[trigger] word_encoding(words@[k]@) == Some(m) by {
                if exists|k: int| 0 <= k < i + 1 && #[trigger] word_encoding(words@[k]@) == Some(m) {
                    let k = choose|k: int| 0 <= k < i + 1 && #[trigger] word_encoding(words@[k]@) == Some(m);
                    if k < i {
                        assert(exists|k2: int| 0 <= k2 < i && #[trigger] word_encoding(words@[k2]@) == Some(m));
                    }
                }
            }
        }
        i = i + 1;
    }
    proof {
        assert forall|m: u32| #[trigger] masks@.contains(m) implies popcount(m) == WORD_LEN by {
            let k = choose|k: int| 0 <= k < words.len() && #[trigger] word_encoding(words@[k]@) == Some(m);
            let s = words@[k]@;
            assert(bytes_of(s).len() == WORD_LEN);
            lemma_word_encoding_total(s);
        }
    }
    masks
}

/// The mask set of a dictionary is determined by the dictionary: any two
/// results that `reduce` may give for the same words are the same sequence,
/// so running it twice gives the same mask set.
pub proof fn lemma_reduce_deterministic(words: Seq<String>, r1: Seq<u32>, r2: Seq<u32>)
    requires
        strictly_sorted(r1),
        strictly_sorted(r2),
        forall|m: u32| #[trigger] r1.contains(m) <==> in_dictionary(words, m),
        forall|m: u32| #[trigger] r2.contains(m) <==> in_dictionary(words, m),
    ensures
        r1 == r2,
{
    assert forall|x: u32| r1.contains(x) <==> r2.contains(x) by {
        assert(r1.contains(x) <==> in_dictionary(words, x));
        assert(r2.contains(x) <==> in_dictionary(words, x));
    }
    lemma_sorted_unique(r1, r2);
}

} // verus!
