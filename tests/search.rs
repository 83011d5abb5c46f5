use std::collections::HashMap;
use wordle::{build_graph, convert, encode_word, intersect_sorted, reduce, search, search_from_seed};

fn mask(w: &str) -> u32 {
    let mut m: u32 = 0;
    for b in w.bytes() {
        m |= 1u32 << (b - b'a');
    }
    m
}

fn words(ws: &[&str]) -> Vec<String> {
    ws.iter().map(|w| w.to_string()).collect()
}

fn run(masks: &Vec<u32>, n: usize) -> Vec<Vec<u32>> {
    let graph = build_graph(masks);
    search(masks, &graph, n)
}

fn fixture() -> Vec<u32> {
    let mut v = vec![0b00011u32, 0b00101, 0b11000, 0b00010, 0b10100];
    v.sort();
    v
}

#[test]
fn convert_sets_one_bit_per_letter() {
    assert_eq!(convert("abcde"), Some(0b11111));
    assert_eq!(convert("fjord"), Some((1 << 5) | (1 << 9) | (1 << 14) | (1 << 17) | (1 << 3)));
    assert_eq!(convert("z"), Some(1 << 25));
    assert_eq!(convert(""), Some(0));
}

#[test]
fn convert_rejects_repeated_letters() {
    assert_eq!(convert("hello"), None);
    assert_eq!(convert("abcda"), None);
    assert_eq!(convert("aa"), None);
}

#[test]
fn convert_rejects_bytes_that_are_not_lowercase_letters() {
    assert_eq!(convert("Abcde"), None);
    assert_eq!(convert("ab-de"), None);
    assert_eq!(convert("abcdé"), None);
}

#[test]
fn encoded_words_have_one_bit_per_letter() {
    for w in ["fjord", "gucks", "nymph", "vibex", "waltz", "abide", "zebra"] {
        let m = encode_word(w).unwrap();
        assert_eq!(m.count_ones(), 5);
        assert_eq!(m, mask(w));
    }
    for w in ["geese", "llama", "aabbc"] {
        assert_eq!(encode_word(w), None);
    }
}

#[test]
fn encode_word_filters_length() {
    assert_eq!(encode_word("abcd"), None);
    assert_eq!(encode_word("abcdef"), None);
    assert_eq!(encode_word("abcde"), Some(0b11111));
}

#[test]
fn reduce_collapses_anagrams() {
    let r = reduce(&words(&["abide", "abied"]));
    assert_eq!(r, vec![mask("abide")]);
}

#[test]
fn reduce_sorts_dedups_and_filters() {
    let ws = words(&["waltz", "hello", "abc", "fjord", "abide", "toolong", "abied", "fjord", "Upper"]);
    let mut expected = vec![mask("waltz"), mask("fjord"), mask("abide")];
    expected.sort();
    assert_eq!(reduce(&ws), expected);
}

#[test]
fn reduce_is_deterministic() {
    let ws = words(&["nymph", "vibex", "gucks", "abide", "abied", "fjord", "geese"]);
    assert_eq!(reduce(&ws), reduce(&ws));
}

#[test]
fn reduce_of_empty_dictionary_is_empty() {
    assert_eq!(reduce(&Vec::new()), Vec::<u32>::new());
}

#[test]
fn intersect_sorted_merges() {
    assert_eq!(intersect_sorted(&vec![1, 3, 5, 7, 9], &vec![2, 3, 4, 9, 10]), vec![3, 9]);
    assert_eq!(intersect_sorted(&vec![], &vec![1, 2]), Vec::<u32>::new());
    assert_eq!(intersect_sorted(&vec![4, 8], &vec![1, 2]), Vec::<u32>::new());
}

#[test]
fn graph_records_each_disjoint_pair_once() {
    let masks = fixture();
    let g: HashMap<u32, Vec<u32>> = build_graph(&masks);
    assert_eq!(g.len(), masks.len());
    assert_eq!(g[&0b00010], vec![0b00101, 0b10100, 0b11000]);
    assert_eq!(g[&0b00011], vec![0b10100, 0b11000]);
    assert_eq!(g[&0b00101], vec![0b11000]);
    assert_eq!(g[&0b10100], Vec::<u32>::new());
    assert_eq!(g[&0b11000], Vec::<u32>::new());
    for &x in &masks {
        for &y in &masks {
            if x < y && x & y == 0 {
                assert!(g[&x].contains(&y));
                assert!(!g[&y].contains(&x));
            }
        }
    }
}

#[test]
fn fixture_pairs_are_exactly_the_disjoint_pairs() {
    let found = run(&fixture(), 2);
    assert_eq!(
        found,
        vec![
            vec![0b00010, 0b00101],
            vec![0b00010, 0b10100],
            vec![0b00010, 0b11000],
            vec![0b00011, 0b10100],
            vec![0b00011, 0b11000],
            vec![0b00101, 0b11000],
        ]
    );
    assert!(found.contains(&vec![0b00011, 0b11000]));
    assert!(!found.contains(&vec![0b00011, 0b00101]));
}

#[test]
fn fixture_triples() {
    assert_eq!(run(&fixture(), 3), vec![vec![0b00010, 0b00101, 0b11000]]);
}

#[test]
fn single_masks_are_combinations_of_one() {
    let masks = fixture();
    let found = run(&masks, 1);
    assert_eq!(found, masks.iter().map(|&m| vec![m]).collect::<Vec<_>>());
}

#[test]
fn empty_mask_set_gives_nothing() {
    assert_eq!(run(&Vec::new(), 2), Vec::<Vec<u32>>::new());
    assert_eq!(run(&Vec::new(), 5), Vec::<Vec<u32>>::new());
}

#[test]
fn unreachable_length_gives_nothing() {
    assert_eq!(run(&fixture(), 4), Vec::<Vec<u32>>::new());
    assert_eq!(run(&fixture(), 9), Vec::<Vec<u32>>::new());
    assert_eq!(run(&fixture(), 0), Vec::<Vec<u32>>::new());
}

#[test]
fn seed_search_keeps_its_first_member() {
    let masks = fixture();
    let g = build_graph(&masks);
    assert_eq!(search_from_seed(&masks, &g, 2, 1), vec![vec![0b00011, 0b10100], vec![0b00011, 0b11000]]);
    assert_eq!(search_from_seed(&masks, &g, 2, 4), Vec::<Vec<u32>>::new());
    let mut all = Vec::new();
    for s in 0..masks.len() {
        all.extend(search_from_seed(&masks, &g, 2, s));
    }
    assert_eq!(all, search(&masks, &g, 2));
}

fn dictionary() -> Vec<String> {
    words(&[
        "fjord", "gucks", "nymph", "vibex", "waltz", "abide", "abied", "crane", "slate", "bumpy",
        "glyph", "vozhd", "kempt", "fritz", "jumbo", "squaw", "chunk", "dwelt", "zebra", "xylem",
        "geese", "hello", "quick", "brown", "foxes", "jumps", "lazy", "waqfs", "cylix", "bling",
    ])
}

#[test]
fn known_five_word_answer_is_found() {
    let masks = reduce(&dictionary());
    let found = run(&masks, 5);
    let mut known: Vec<u32> = ["fjord", "gucks", "nymph", "vibex", "waltz"].iter().map(|w| mask(w)).collect();
    known.sort();
    assert!(found.contains(&known));
    for c in &found {
        let union = c.iter().fold(0u32, |a, &m| a | m);
        assert_eq!(union.count_ones(), 25);
    }
}

fn brute_force(masks: &[u32], n: usize, start: usize, used: u32, cur: &mut Vec<u32>, out: &mut Vec<Vec<u32>>) {
    if cur.len() == n {
        out.push(cur.clone());
        return;
    }
    for i in start..masks.len() {
        if masks[i] & used == 0 {
            cur.push(masks[i]);
            brute_force(masks, n, i + 1, used | masks[i], cur, out);
            cur.pop();
        }
    }
}

#[test]
fn results_agree_with_brute_force() {
    let masks = reduce(&dictionary());
    for n in 1..=5 {
        let mut found = run(&masks, n);
        let mut expected = Vec::new();
        brute_force(&masks, n, 0, 0, &mut Vec::new(), &mut expected);
        found.sort();
        expected.sort();
        assert_eq!(found, expected);
    }
}

#[test]
fn results_are_disjoint_and_never_permuted() {
    let masks = reduce(&dictionary());
    for n in 2..=4 {
        let found = run(&masks, n);
        let mut seen: Vec<Vec<u32>> = Vec::new();
        for c in &found {
            assert_eq!(c.len(), n);
            for i in 0..c.len() {
                for j in (i + 1)..c.len() {
                    assert_eq!(c[i] & c[j], 0);
                }
            }
            let mut key = c.clone();
            key.sort();
            assert!(!seen.contains(&key));
            seen.push(key);
        }
    }
}
