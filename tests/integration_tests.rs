use matchertools::{gale_shapley, get_reference_from_usize, MatchError};
use std::collections::HashMap;

#[test]
fn test_simple_case() {
    let men_preferences = HashMap::from([
        //
        (0, vec![0, 1]),
        (1, vec![0, 1]),
    ]);
    let women_preferences = HashMap::from([
        //
        (0, vec![1, 0]),
        (1, vec![1, 0]),
    ]);

    let engaged_man_woman = gale_shapley(&men_preferences, &women_preferences).unwrap();

    assert_eq!(engaged_man_woman.get(&0), Some(&1));
    assert_eq!(engaged_man_woman.get(&1), Some(&0));
}

#[test]
fn test_simple_case_str() {
    let julius = "Julius";
    let cleopatra = "Cleopatra";
    let boudica = "Boudica";
    let vercingetorix = "Vercingetorix";

    let men_preferences = HashMap::from([
        (julius, vec![cleopatra, boudica]),
        (vercingetorix, vec![boudica, cleopatra]),
    ]);
    let women_preferences = HashMap::from([
        (cleopatra, vec![julius, vercingetorix]),
        (boudica, vec![vercingetorix, julius]),
    ]);

    let engaged_man_woman = gale_shapley(&men_preferences, &women_preferences).unwrap();

    assert_eq!(engaged_man_woman.get(&julius), Some(&cleopatra));
    assert_eq!(engaged_man_woman.get(&vercingetorix), Some(&boudica));
}

#[test]
fn test_simple_case_str_2() {
    let men_preferences = HashMap::from([
        ("julius", vec!["cleopatra", "boudica", "nefertiti"]),
        ("antony", vec!["cleopatra", "nefertiti", "boudica"]),
        ("vercingetorix", vec!["boudica", "nefertiti", "cleopatra"]),
    ]);
    let women_preferences = HashMap::from([
        ("cleopatra", vec!["julius", "antony", "vercingetorix"]),
        ("boudica", vec!["vercingetorix", "antony", "julius"]),
        ("nefertiti", vec!["julius", "vercingetorix", "antony"]),
    ]);

    let engaged_man_woman = gale_shapley(&men_preferences, &women_preferences).unwrap();

    assert_eq!(engaged_man_woman.get("julius"), Some(&"cleopatra"));
    assert_eq!(engaged_man_woman.get("antony"), Some(&"nefertiti"));
    assert_eq!(engaged_man_woman.get("vercingetorix"), Some(&"boudica"));
}

#[test]
fn test_simple_case_string_3() {
    let julius = "Julius".to_owned();
    let cleopatra = "Cleopatra".to_owned();
    let boudica = "Boudica".to_owned();
    let vercingetorix = "Vercingetorix".to_owned();

    let men_preferences = HashMap::from([
        (&julius, vec![&cleopatra, &boudica]),
        (&vercingetorix, vec![&boudica, &cleopatra]),
    ]);
    let women_preferences = HashMap::from([
        (&cleopatra, vec![&julius, &vercingetorix]),
        (&boudica, vec![&vercingetorix, &julius]),
    ]);

    let engaged_man_woman = gale_shapley(&men_preferences, &women_preferences).unwrap();

    assert_eq!(engaged_man_woman.get(&julius), Some(&&cleopatra));
    assert_eq!(engaged_man_woman.get(&vercingetorix), Some(&&boudica));
}

#[test]
fn test_moderate_case() {
    let men_preferences = HashMap::from([
        (0, vec![0, 1, 2, 3, 4]),
        (1, vec![4, 3, 2, 1, 0]),
        (2, vec![0, 1, 4, 2, 3]),
        (3, vec![2, 4, 3, 0, 1]),
        (4, vec![4, 0, 1, 3, 2]),
    ]);

    let women_preferences = HashMap::from([
        (0, vec![0, 1, 2, 3, 4]),
        (1, vec![1, 2, 4, 3, 0]),
        (2, vec![2, 4, 1, 0, 3]),
        (3, vec![0, 4, 3, 1, 2]),
        (4, vec![3, 0, 2, 4, 1]),
    ]);

    let engaged_man_woman = gale_shapley(&men_preferences, &women_preferences).unwrap();

    assert_eq!(engaged_man_woman.get(&0), Some(&0));
    assert_eq!(engaged_man_woman.get(&1), Some(&3));
    assert_eq!(engaged_man_woman.get(&2), Some(&1));
    assert_eq!(engaged_man_woman.get(&3), Some(&2));
    assert_eq!(engaged_man_woman.get(&4), Some(&4));
}

fn moderate_men() -> HashMap<u32, Vec<u32>> {
    HashMap::from([
        (0, vec![0, 1, 2, 3, 4]),
        (1, vec![4, 3, 2, 1, 0]),
        (2, vec![0, 1, 4, 2, 3]),
        (3, vec![2, 4, 3, 0, 1]),
        (4, vec![4, 0, 1, 3, 2]),
    ])
}

fn moderate_women() -> HashMap<u32, Vec<u32>> {
    HashMap::from([
        (0, vec![0, 1, 2, 3, 4]),
        (1, vec![1, 2, 4, 3, 0]),
        (2, vec![2, 4, 1, 0, 3]),
        (3, vec![0, 4, 3, 1, 2]),
        (4, vec![3, 0, 2, 4, 1]),
    ])
}

/// A small deterministic instance generator (linear congruential shuffles).
fn shuffled(n: u32, seed: u64) -> Vec<u32> {
    let mut v: Vec<u32> = (0..n).collect();
    let mut x = seed;
    for i in (1..v.len()).rev() {
        x = x.wrapping_mul(6364136223846793005).wrapping_add(1442695040888963407);
        let j = ((x >> 33) as usize) % (i + 1);
        v.swap(i, j);
    }
    v
}

fn instance(n: u32, seed: u64) -> (HashMap<u32, Vec<u32>>, HashMap<u32, Vec<u32>>) {
    let men = (0..n).map(|m| (m, shuffled(n, seed * 1000 + m as u64))).collect();
    let women = (0..n).map(|w| (w, shuffled(n, seed * 1000 + 500 + w as u64))).collect();
    (men, women)
}

fn rank_of(list: &[u32], x: u32) -> usize {
    list.iter().position(|&y| y == x).unwrap()
}

fn is_stable(
    men: &HashMap<u32, Vec<u32>>,
    women: &HashMap<u32, Vec<u32>>,
    s: &HashMap<u32, u32>,
) -> bool {
    for (&m1, &w1) in s {
        for (&m2, &w2) in s {
            let m1_prefers = rank_of(&men[&m1], w2) < rank_of(&men[&m1], w1);
            let w2_prefers = rank_of(&women[&w2], m1) < rank_of(&women[&w2], m2);
            if m1_prefers && w2_prefers {
                return false;
            }
        }
    }
    true
}

fn all_perfect_matchings(n: u32) -> Vec<Vec<u32>> {
    if n == 0 {
        return vec![vec![]];
    }
    let mut out = Vec::new();
    for rest in all_perfect_matchings(n - 1) {
        for pos in 0..=rest.len() {
            let mut p = rest.clone();
            p.insert(pos, n - 1);
            out.push(p);
        }
    }
    out
}

#[test]
fn mismatched_sizes_are_refused() {
    let men = HashMap::from([(0, vec![0, 1, 2]), (1, vec![0, 1, 2])]);
    let women = HashMap::from([(0, vec![0, 1]), (1, vec![0, 1]), (2, vec![1, 0])]);
    assert_eq!(gale_shapley(&men, &women), Err(MatchError::InputSizeMismatch));
}

#[test]
fn duplicate_preference_is_refused() {
    let men = HashMap::from([(0, vec![0, 0]), (1, vec![0, 1])]);
    let women = HashMap::from([(0, vec![0, 1]), (1, vec![1, 0])]);
    assert_eq!(
        gale_shapley(&men, &women),
        Err(MatchError::IncompletePreferenceList)
    );
}

#[test]
fn unknown_key_is_refused() {
    let men = HashMap::from([(0, vec![0, 1]), (1, vec![0, 1])]);
    let women = HashMap::from([(0, vec![0, 7]), (1, vec![1, 0])]);
    assert_eq!(
        gale_shapley(&men, &women),
        Err(MatchError::IncompletePreferenceList)
    );
}

#[test]
fn short_list_is_refused() {
    let men = HashMap::from([(0, vec![0, 1]), (1, vec![0])]);
    let women = HashMap::from([(0, vec![0, 1]), (1, vec![1, 0])]);
    assert_eq!(
        gale_shapley(&men, &women),
        Err(MatchError::IncompletePreferenceList)
    );
}

#[test]
fn empty_groups_give_empty_matching() {
    let men: HashMap<u8, Vec<u8>> = HashMap::new();
    let women: HashMap<u8, Vec<u8>> = HashMap::new();
    assert_eq!(gale_shapley(&men, &women), Ok(HashMap::new()));
}

#[test]
fn single_pair_is_matched() {
    let men = HashMap::from([('a', vec!['x'])]);
    let women = HashMap::from([('x', vec!['a'])]);
    assert_eq!(gale_shapley(&men, &women), Ok(HashMap::from([('a', 'x')])));
}

#[test]
fn repeated_runs_agree() {
    let men = moderate_men();
    let women = moderate_women();
    let first = gale_shapley(&men, &women).unwrap();
    let second = gale_shapley(&men, &women).unwrap();
    assert_eq!(first, second);
}

#[test]
fn result_is_a_bijection() {
    for seed in 0..20 {
        let (men, women) = instance(7, seed);
        let s = gale_shapley(&men, &women).unwrap();
        assert_eq!(s.len(), 7);
        let mut values: Vec<u32> = s.values().copied().collect();
        values.sort();
        assert_eq!(values, (0..7).collect::<Vec<u32>>());
    }
}

#[test]
fn result_is_stable() {
    for seed in 0..20 {
        let (men, women) = instance(8, seed);
        let s = gale_shapley(&men, &women).unwrap();
        assert!(is_stable(&men, &women, &s));
    }
}

#[test]
fn result_is_proposer_optimal() {
    for seed in 0..10 {
        let (men, women) = instance(5, seed);
        let s = gale_shapley(&men, &women).unwrap();
        for p in all_perfect_matchings(5) {
            let t: HashMap<u32, u32> = p.iter().enumerate().map(|(m, &w)| (m as u32, w)).collect();
            if is_stable(&men, &women, &t) {
                for m in 0..5u32 {
                    assert!(rank_of(&men[&m], s[&m]) <= rank_of(&men[&m], t[&m]));
                }
            }
        }
    }
}

#[test]
fn relabeling_keys_relabels_result() {
    let men = moderate_men();
    let women = moderate_women();
    let rename_man = |m: u32| 100 + 7 * m;
    let rename_woman = |w: u32| format!("w{}", w);
    let names: Vec<String> = (0..5).map(rename_woman).collect();
    let renamed_men: HashMap<u32, Vec<&str>> = men
        .iter()
        .map(|(&m, l)| (rename_man(m), l.iter().map(|&w| names[w as usize].as_str()).collect()))
        .collect();
    let renamed_women: HashMap<&str, Vec<u32>> = women
        .iter()
        .map(|(&w, l)| (names[w as usize].as_str(), l.iter().map(|&m| rename_man(m)).collect()))
        .collect();
    let before = gale_shapley(&men, &women).unwrap();
    // Both groups must share one key type, so relabel through strings.
    let men_s: HashMap<String, Vec<String>> = renamed_men
        .iter()
        .map(|(m, l)| (format!("m{}", m), l.iter().map(|w| w.to_string()).collect()))
        .collect();
    let women_s: HashMap<String, Vec<String>> = renamed_women
        .iter()
        .map(|(w, l)| (w.to_string(), l.iter().map(|m| format!("m{}", m)).collect()))
        .collect();
    let men_r: HashMap<&String, Vec<&String>> =
        men_s.iter().map(|(k, l)| (k, l.iter().collect())).collect();
    let women_r: HashMap<&String, Vec<&String>> =
        women_s.iter().map(|(k, l)| (k, l.iter().collect())).collect();
    let renamed = gale_shapley(&men_r, &women_r).unwrap();
    for (m, w) in before {
        let key = format!("m{}", rename_man(m));
        assert_eq!(renamed[&key], &names[w as usize]);
    }
}

#[test]
fn reference_lookup_by_index() {
    let keys = vec!["a", "b", "c"];
    assert_eq!(get_reference_from_usize(&keys, 1), Some("b"));
    assert_eq!(get_reference_from_usize(&keys, 3), None);
}

#[test]
fn three_pairs_with_names() {
    let men_preferences = HashMap::from([
        ("Julius", vec!["Cleopatra", "Boudica", "Nefertiti"]),
        ("Antony", vec!["Cleopatra", "Nefertiti", "Boudica"]),
        ("Vercingetorix", vec!["Boudica", "Nefertiti", "Cleopatra"]),
    ]);
    let women_preferences = HashMap::from([
        ("Cleopatra", vec!["Julius", "Antony", "Vercingetorix"]),
        ("Boudica", vec!["Vercingetorix", "Antony", "Julius"]),
        ("Nefertiti", vec!["Julius", "Vercingetorix", "Antony"]),
    ]);
    let expected = HashMap::from([
        ("Julius", "Cleopatra"),
        ("Antony", "Nefertiti"),
        ("Vercingetorix", "Boudica"),
    ]);
    assert_eq!(gale_shapley(&men_preferences, &women_preferences), Ok(expected));
}
