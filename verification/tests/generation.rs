use pkcs12cracker::crackers::CHUNK_SIZE;
use pkcs12cracker::crackers::build_indexed_chunk;
use pkcs12cracker::crackers::generate_combinations;
use pkcs12cracker::crackers::nth_combination;
use pkcs12cracker::crackers::pattern::PatternCracker;
use pkcs12cracker::crackers::pattern::apply_all;
use pkcs12cracker::crackers::dictionary::DictionaryCracker;
use pkcs12cracker::crackers::pow_saturating;

fn chars(s: &str) -> Vec<char> {
    s.chars().collect()
}

fn string(v: &Vec<char>) -> String {
    v.iter().collect()
}

fn strings(vs: &Vec<Vec<char>>) -> Vec<String> {
    vs.iter().map(string).collect()
}

#[test]
fn bruteforce_fixed_length_space_is_the_full_cartesian_product() {
    let charset = chars("abc");
    let mut combos: Vec<Vec<char>> = Vec::new();
    generate_combinations(&charset, 2, &Vec::new(), &mut combos);
    let words = strings(&combos);
    assert_eq!(
        words,
        vec!["aa", "ab", "ac", "ba", "bb", "bc", "ca", "cb", "cc"]
    );
    // Exactly n^L candidates, each of length L, all distinct.
    assert_eq!(words.len(), 9);
    for w in &words {
        assert_eq!(w.len(), 2);
        assert!(w.chars().all(|c| "abc".contains(c)));
    }
    let mut sorted = words.clone();
    sorted.sort();
    sorted.dedup();
    assert_eq!(sorted.len(), 9);
}

#[test]
fn generator_appends_after_a_prefix() {
    let charset = chars("xy");
    let mut combos: Vec<Vec<char>> = Vec::new();
    generate_combinations(&charset, 1, &chars("Q"), &mut combos);
    assert_eq!(strings(&combos), vec!["Qx", "Qy"]);
}

#[test]
fn mixed_radix_indexing_enumerates_least_significant_first() {
    let charset = chars("ab");
    // Index 0 -> "aa", 1 -> "ba", 2 -> "ab", 3 -> "bb".
    assert_eq!(string(&nth_combination(&charset, 2, 0)), "aa");
    assert_eq!(string(&nth_combination(&charset, 2, 1)), "ba");
    assert_eq!(string(&nth_combination(&charset, 2, 2)), "ab");
    assert_eq!(string(&nth_combination(&charset, 2, 3)), "bb");
}

#[test]
fn pattern_candidates_substitute_only_variable_positions() {
    let cracker = PatternCracker::new("P@@".to_string(), "ab".to_string(), '@');
    let words = strings(&cracker.candidates());
    assert_eq!(words, vec!["Paa", "Pab", "Pba", "Pbb"]);
}

#[test]
fn both_generation_paths_produce_the_same_candidate_set() {
    let cracker = PatternCracker::new("@@@".to_string(), "ab".to_string(), '@');
    let mut materialized = strings(&cracker.candidates());

    let charset = chars("ab");
    let template = chars("???");
    let positions: Vec<usize> = vec![0, 1, 2];
    let raw = build_indexed_chunk(&charset, 3, 0, 8);
    let mut indexed = strings(&apply_all(&template, &positions, &raw));

    materialized.sort();
    indexed.sort();
    assert_eq!(materialized, indexed);
}

#[test]
fn saturating_power_clamps_at_the_word_size() {
    assert_eq!(pow_saturating(2, 10), 1024);
    assert_eq!(pow_saturating(10, 0), 1);
    assert_eq!(pow_saturating(0, 5), 0);
    assert_eq!(pow_saturating(2, 1000), usize::MAX);
}

#[test]
fn dictionary_candidates_split_and_trim_the_whole_content() {
    let cracker = DictionaryCracker::new(" xyz \nabc123\n\nqqq".to_string(), "\n".to_string());
    let words = strings(&cracker.candidates());
    assert_eq!(words, vec!["xyz", "abc123", "", "qqq"]);
}

#[test]
fn dictionary_loses_no_entry_on_content_larger_than_a_chunk() {
    let mut content = String::new();
    let mut expected: Vec<String> = Vec::new();
    let mut i = 0;
    while content.len() <= 2 * CHUNK_SIZE {
        let word = format!("word{}", i);
        expected.push(word.clone());
        content.push_str(&word);
        content.push('\n');
        i += 1;
    }
    expected.push(String::new());
    let naive: Vec<String> = content.split('\n').map(|p| p.trim().to_string()).collect();
    assert_eq!(naive, expected);

    let cracker = DictionaryCracker::new(content, "\n".to_string());
    let words = strings(&cracker.candidates());
    assert_eq!(words, expected);
}
