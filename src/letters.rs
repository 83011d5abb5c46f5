//! The letter-mask encoder: a word becomes the set of its letters, one bit each.
use vstd::prelude::*;
use vstd::utf8::encode_utf8;

verus! {

/// Length, in bytes, of the words that the search composes.
pub const WORD_LEN: usize = 5;

/// A lowercase ASCII letter.
pub open spec fn is_letter(b: u8) -> bool {
    97 <= b <= 122
}

/// The single bit that stands for a lowercase letter.
pub open spec fn letter_bit(b: u8) -> u32 {
    1u32 << ((b - 97) as u32)
}

/// Every byte is a lowercase letter and no letter occurs twice.
pub open spec fn distinct_letters(w: Seq<u8>) -> bool {
    &&& forall|i: int| 0 <= i < w.len() ==> is_letter(#[trigger] w[i])
    &&& forall|i: int, j: int| 0 <= i < j < w.len() ==> w[i] != w[j]
}

/// The union of the bits of the letters of `w`.
pub open spec fn mask_of(w: Seq<u8>) -> u32
    decreases w.len(),
{
    if w.len() == 0 {
        0
    } else {
        mask_of(w.drop_last()) | letter_bit(w.last())
    }
}

/// What encoding a word gives: its mask, or nothing when a byte is not a
/// lowercase letter or a letter repeats.
pub open spec fn encoding(w: Seq<u8>) -> Option<u32> {
    if distinct_letters(w) {
        Some(mask_of(w))
    } else {
        None
    }
}

/// The bytes of a string.
pub open spec fn bytes_of(s: Seq<char>) -> Seq<u8> {
    encode_utf8(s)
}

/// What the search makes of a dictionary word: words of the wrong length give
/// nothing, the others their encoding.
pub open spec fn word_encoding(s: Seq<char>) -> Option<u32> {
    if bytes_of(s).len() == WORD_LEN {
        encoding(bytes_of(s))
    } else {
        None
    }
}

proof fn lemma_bit_facts(x: u8, y: u8, m: u32)
    requires
        is_letter(x),
        is_letter(y),
    ensures
        (letter_bit(x) & letter_bit(y) != 0) <==> x == y,
        (letter_bit(x) & (m | letter_bit(y)) != 0) <==> (letter_bit(x) & m != 0 || x == y),
{
    let a = (x - 97) as u32;
    let b = (y - 97) as u32;
    assert(a < 26 && b < 26);
    assert((1u32 << a) & (1u32 << b) != 0 <==> a == b) by (bit_vector)
        requires
            a < 26,
            b < 26,
    ;
    assert(((1u32 << a) & (m | (1u32 << b)) != 0) <==> ((1u32 << a) & m != 0 || a == b))
        by (bit_vector)
        requires
            a < 26,
            b < 26,
    ;
}

/// In a word of distinct letters, a letter's bit is set in the mask exactly
/// when the letter occurs in the word.
pub proof fn lemma_mask_has_letter(w: Seq<u8>, x: u8)
    requires
        distinct_letters(w),
        is_letter(x),
    ensures
        (letter_bit(x) & mask_of(w) != 0) <==> w.contains(x),
    decreases w.len(),
{
    if w.len() == 0 {
        assert(letter_bit(x) & 0u32 == 0) by (bit_vector);
    } else {
        let p = w.drop_last();
        assert(distinct_letters(p)) by {
            assert forall|i: int| 0 <= i < p.len() implies is_letter(#[trigger] p[i]) by {
                assert(p[i] == w[i]);
            }
        }
        lemma_mask_has_letter(p, x);
        assert(is_letter(w.last())) by {
            assert(w.last() == w[w.len() - 1]);
        }
        lemma_bit_facts(x, w.last(), mask_of(p));
        if w.contains(x) && !p.contains(x) {
            let k = choose|k: int| 0 <= k < w.len() && w[k] == x;
            if k < w.len() - 1 {
                assert(p[k] == x);
            }
        }
        if p.contains(x) {
            let k = choose|k: int| 0 <= k < p.len() && p[k] == x;
            assert(w[k] == x);
        }
    }
}

/// Encodes a word as the set of its letters, bit `i` for the `i`-th letter
/// of the alphabet. Fails when a byte is not a lowercase letter or when a
/// letter repeats.
pub fn convert(s: &str) -> (r: Option<u32>)
    ensures
        r == encoding(bytes_of(s@)),
{
    let bytes = s.as_bytes();
    let ghost w = bytes@;
    assert(w == bytes_of(s@));
    let mut bit_word: u32 = 0;
    let mut i: usize = 0;
    while i < bytes.len()
        invariant
            w == bytes@,
            w == bytes_of(s@),
            i <= w.len(),
            distinct_letters(w.take(i as int)),
            bit_word == mask_of(w.take(i as int)),
        decreases w.len() - i,
    {
        let b = bytes[i];
        if b < 97 || b > 122 {
            assert(!is_letter(w[i as int]));
            return None;
        }
        let bit: u32 = 1u32 << (b - 97);
        proof {
            lemma_mask_has_letter(w.take(i as int), b);
        }
        if bit & bit_word != 0 {
            proof {
                let p = w.take(i as int);
                let k = choose|k: int| 0 <= k < p.len() && p[k] == b;
                assert(w[k] == w[i as int]);
                assert(!distinct_letters(w));
            }
            return None;
        }
        bit_word = bit_word | bit;
        proof {
            let p = w.take(i as int);
            let q = w.take(i + 1);
            assert(q.drop_last() =~= p);
            assert(q.last() == b);
            assert forall|x: int, y: int| 0 <= x < y < q.len() implies q[x] != q[y] by {
                if y == i {
                    assert(q[x] == p[x]);
                    if q[x] == b {
                        assert(p.contains(b));
                    }
                } else {
                    assert(q[x] == p[x] && q[y] == p[y]);
                }
            }
            assert forall|x: int| 0 <= x < q.len() implies is_letter(#[trigger] q[x]) by {
                if x < i {
                    assert(q[x] == p[x]);
                }
            }
        }
        i = i + 1;
    }
    assert(w.take(w.len() as int) =~= w);
    Some(bit_word)
}

/// Encodes a dictionary word: words that are not `WORD_LEN` bytes long give
/// nothing, the others what `convert` gives.
pub fn encode_word(s: &str) -> (r: Option<u32>)
    ensures
        r == word_encoding(s@),
{
    if s.as_bytes().len() != WORD_LEN {
        return None;
    }
    convert(s)
}

/// The number of bits set in `x`.
pub open spec fn popcount(x: u32) -> nat
    decreases x,
{
    if x == 0 {
        0
    } else {
        popcount(x / 2) + (x % 2) as nat
    }
}

/// Setting a bit that was clear adds one to the count.
proof fn lemma_popcount_add_bit(m: u32, a: u32)
    requires
        a < 32,
        m & (1u32 << a) == 0,
    ensures
        popcount(m | (1u32 << a)) == popcount(m) + 1,
    decreases a,
{
    let n = m | (1u32 << a);
    if a == 0 {
        assert(n / 2 == m / 2 && n % 2 == 1 && m % 2 == 0 && n != 0) by (bit_vector)
            requires
                n == m | (1u32 << a),
                a == 0,
                m & (1u32 << a) == 0,
        ;
        if m == 0 {
            assert(popcount(0) == 0);
        }
    } else {
        let h = m / 2;
        let b = (a - 1) as u32;
        assert(n / 2 == h | (1u32 << b) && n % 2 == m % 2 && h & (1u32 << b) == 0 && n != 0)
            by (bit_vector)
            requires
                n == m | (1u32 << a),
                h == m / 2,
                b == a - 1,
                0 < a < 32,
                m & (1u32 << a) == 0,
        ;
        lemma_popcount_add_bit(h, b);
        if m == 0 {
            assert(h == 0);
            assert(popcount(0) == 0);
        }
    }
}

/// A word of distinct letters sets exactly as many bits as it has letters.
pub proof fn lemma_popcount_mask(w: Seq<u8>)
    requires
        distinct_letters(w),
    ensures
        popcount(mask_of(w)) == w.len(),
    decreases w.len(),
{
    if w.len() == 0 {
        assert(popcount(0) == 0);
    } else {
        let p = w.drop_last();
        let x = w.last();
        assert(is_letter(x)) by {
            assert(x == w[w.len() - 1]);
        }
        assert(distinct_letters(p)) by {
            assert forall|i: int| 0 <= i < p.len() implies is_letter(#[trigger] p[i]) by {
                assert(p[i] == w[i]);
            }
        }
        lemma_popcount_mask(p);
        lemma_mask_has_letter(p, x);
        if p.contains(x) {
            let k = choose|k: int| 0 <= k < p.len() && p[k] == x;
            assert(w[k] == w[w.len() - 1]);
        }
        let a = (x - 97) as u32;
        let mp = mask_of(p);
        assert(mp & (1u32 << a) == 0) by (bit_vector)
            requires
                (1u32 << a) & mp == 0,
        ;
        lemma_popcount_add_bit(mp, a);
    }
}

/// A word whose bytes are lowercase letters, none twice, encodes, and its mask
/// has one bit for each letter; a word with a repeated byte does not encode.
pub proof fn lemma_encoding_total(w: Seq<u8>)
    ensures
        distinct_letters(w) ==> encoding(w) == Some(mask_of(w)) && popcount(mask_of(w)) == w.len(),
        (exists|i: int, j: int| 0 <= i < j < w.len() && w[i] == w[j]) ==> encoding(w) is None,
{
    if distinct_letters(w) {
        lemma_popcount_mask(w);
    }
}

/// A dictionary word of the right length whose letters are distinct encodes to
/// a mask with exactly `WORD_LEN` bits; one with a repeated letter gives nothing.
pub proof fn lemma_word_encoding_total(s: Seq<char>)
    requires
        bytes_of(s).len() == WORD_LEN,
    ensures
        distinct_letters(bytes_of(s)) ==> (word_encoding(s) matches Some(m) && popcount(m) == WORD_LEN),
        (exists|i: int, j: int| 0 <= i < j < bytes_of(s).len() && bytes_of(s)[i] == bytes_of(s)[j])
            ==> word_encoding(s) is None,
{
    lemma_encoding_total(bytes_of(s));
}

/// The mask of a word of distinct letters uses the low 26 bits only.
proof fn lemma_mask_bound(w: Seq<u8>)
    requires
        distinct_letters(w),
    ensures
        mask_of(w) < 0x400_0000,
    decreases w.len(),
{
    if w.len() == 0 {
    } else {
        let p = w.drop_last();
        assert(distinct_letters(p)) by {
            assert forall|i: int| 0 <= i < p.len() implies is_letter(#[trigger] p[i]) by {
                assert(p[i] == w[i]);
            }
        }
        lemma_mask_bound(p);
        assert(is_letter(w.last())) by {
            assert(w.last() == w[w.len() - 1]);
        }
        let a = (w.last() - 97) as u32;
        let m = mask_of(p);
        assert((m | (1u32 << a)) < 0x400_0000) by (bit_vector)
            requires
                m < 0x400_0000,
                a < 26,
        ;
    }
}

/// Anagrams share one mask: two words of distinct letters made of the same
/// letters encode alike.
pub proof fn lemma_anagrams_share_mask(w1: Seq<u8>, w2: Seq<u8>)
    requires
        distinct_letters(w1),
        distinct_letters(w2),
        forall|x: u8| w1.contains(x) <==> w2.contains(x),
    ensures
        encoding(w1) == encoding(w2),
{
    let m1 = mask_of(w1);
    let m2 = mask_of(w2);
    lemma_mask_bound(w1);
    lemma_mask_bound(w2);
    assert forall|a: u32| a < 26 implies #[trigger] ((m1 >> a) & 1) == (m2 >> a) & 1 by {
        let x = (97 + a) as u8;
        lemma_mask_has_letter(w1, x);
        lemma_mask_has_letter(w2, x);
        assert(letter_bit(x) == 1u32 << a);
        assert(((1u32 << a) & m1 != 0) <==> ((m1 >> a) & 1 == 1)) by (bit_vector)
            requires
                a < 26,
        ;
        assert(((1u32 << a) & m2 != 0) <==> ((m2 >> a) & 1 == 1)) by (bit_vector)
            requires
                a < 26,
        ;
        assert((m1 >> a) & 1 == 1 || (m1 >> a) & 1 == 0) by (bit_vector);
        assert((m2 >> a) & 1 == 1 || (m2 >> a) & 1 == 0) by (bit_vector);
    }
    assert((m1 >> 0u32) & 1 == (m2 >> 0u32) & 1);
    assert((m1 >> 1u32) & 1 == (m2 >> 1u32) & 1);
    assert((m1 >> 2u32) & 1 == (m2 >> 2u32) & 1);
    assert((m1 >> 3u32) & 1 == (m2 >> 3u32) & 1);
    assert((m1 >> 4u32) & 1 == (m2 >> 4u32) & 1);
    assert((m1 >> 5u32) & 1 == (m2 >> 5u32) & 1);
    assert((m1 >> 6u32) & 1 == (m2 >> 6u32) & 1);
    assert((m1 >> 7u32) & 1 == (m2 >> 7u32) & 1);
    assert((m1 >> 8u32) & 1 == (m2 >> 8u32) & 1);
    assert((m1 >> 9u32) & 1 == (m2 >> 9u32) & 1);
    assert((m1 >> 10u32) & 1 == (m2 >> 10u32) & 1);
    assert((m1 >> 11u32) & 1 == (m2 >> 11u32) & 1);
    assert((m1 >> 12u32) & 1 == (m2 >> 12u32) & 1);
    assert((m1 >> 13u32) & 1 == (m2 >> 13u32) & 1);
    assert((m1 >> 14u32) & 1 == (m2 >> 14u32) & 1);
    assert((m1 >> 15u32) & 1 == (m2 >> 15u32) & 1);
    assert((m1 >> 16u32) & 1 == (m2 >> 16u32) & 1);
    assert((m1 >> 17u32) & 1 == (m2 >> 17u32) & 1);
    assert((m1 >> 18u32) & 1 == (m2 >> 18u32) & 1);
    assert((m1 >> 19u32) & 1 == (m2 >> 19u32) & 1);
    assert((m1 >> 20u32) & 1 == (m2 >> 20u32) & 1);
    assert((m1 >> 21u32) & 1 == (m2 >> 21u32) & 1);
    assert((m1 >> 22u32) & 1 == (m2 >> 22u32) & 1);
    assert((m1 >> 23u32) & 1 == (m2 >> 23u32) & 1);
    assert((m1 >> 24u32) & 1 == (m2 >> 24u32) & 1);
    assert((m1 >> 25u32) & 1 == (m2 >> 25u32) & 1);
    assert(m1 == m2) by (bit_vector)
        requires
            m1 < 0x400_0000,
            m2 < 0x400_0000,
                (m1 >> 0u32) & 1 == (m2 >> 0u32) & 1,
                (m1 >> 1u32) & 1 == (m2 >> 1u32) & 1,
                (m1 >> 2u32) & 1 == (m2 >> 2u32) & 1,
                (m1 >> 3u32) & 1 == (m2 >> 3u32) & 1,
                (m1 >> 4u32) & 1 == (m2 >> 4u32) & 1,
                (m1 >> 5u32) & 1 == (m2 >> 5u32) & 1,
                (m1 >> 6u32) & 1 == (m2 >> 6u32) & 1,
                (m1 >> 7u32) & 1 == (m2 >> 7u32) & 1,
                (m1 >> 8u32) & 1 == (m2 >> 8u32) & 1,
                (m1 >> 9u32) & 1 == (m2 >> 9u32) & 1,
                (m1 >> 10u32) & 1 == (m2 >> 10u32) & 1,
                (m1 >> 11u32) & 1 == (m2 >> 11u32) & 1,
                (m1 >> 12u32) & 1 == (m2 >> 12u32) & 1,
                (m1 >> 13u32) & 1 == (m2 >> 13u32) & 1,
                (m1 >> 14u32) & 1 == (m2 >> 14u32) & 1,
                (m1 >> 15u32) & 1 == (m2 >> 15u32) & 1,
                (m1 >> 16u32) & 1 == (m2 >> 16u32) & 1,
                (m1 >> 17u32) & 1 == (m2 >> 17u32) & 1,
                (m1 >> 18u32) & 1 == (m2 >> 18u32) & 1,
                (m1 >> 19u32) & 1 == (m2 >> 19u32) & 1,
                (m1 >> 20u32) & 1 == (m2 >> 20u32) & 1,
                (m1 >> 21u32) & 1 == (m2 >> 21u32) & 1,
                (m1 >> 22u32) & 1 == (m2 >> 22u32) & 1,
                (m1 >> 23u32) & 1 == (m2 >> 23u32) & 1,
                (m1 >> 24u32) & 1 == (m2 >> 24u32) & 1,
                (m1 >> 25u32) & 1 == (m2 >> 25u32) & 1,
    ;
}

} // verus!
