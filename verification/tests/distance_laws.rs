use assrs::levenshtein::{levenshtein, levenshtein_extract, AutomatonState, LevenshteinAutomaton};

/// Plain table computation, kept apart from the library on purpose.
fn table_distance(a: &str, b: &str) -> u32 {
    let a: Vec<char> = a.chars().collect();
    let b: Vec<char> = b.chars().collect();
    let mut row: Vec<u32> = (0..=a.len() as u32).collect();
    for (j, cb) in b.iter().enumerate() {
        let mut next = vec![j as u32 + 1];
        for (i, ca) in a.iter().enumerate() {
            let sub = row[i] + if ca == cb { 0 } else { 1 };
            next.push(sub.min(row[i + 1] + 1).min(next[i] + 1));
        }
        row = next;
    }
    row[a.len()]
}

/// Least entry of the column of `b` in the table of `a`.
fn table_reach(a: &str, b: &str) -> u32 {
    let a: Vec<char> = a.chars().collect();
    let b: Vec<char> = b.chars().collect();
    let mut row: Vec<u32> = (0..=a.len() as u32).collect();
    for (j, cb) in b.iter().enumerate() {
        let mut next = vec![j as u32 + 1];
        for (i, ca) in a.iter().enumerate() {
            let sub = row[i] + if ca == cb { 0 } else { 1 };
            next.push(sub.min(row[i + 1] + 1).min(next[i] + 1));
        }
        row = next;
    }
    row.into_iter().min().unwrap()
}

/// A small generator of strings over a few letters, the same on every run.
fn sample(seed: &mut u64, len: usize, letters: &[char]) -> String {
    let mut s = String::new();
    for _ in 0..len {
        *seed = seed
            .wrapping_mul(6364136223846793005)
            .wrapping_add(1442695040888963407);
        s.push(letters[((*seed >> 33) as usize) % letters.len()]);
    }
    s
}

#[test]
fn distance_is_symmetric() {
    let words = ["", "a", "ab", "kitten", "sitting", "flaw", "lawn", "héllo", "日本語"];
    for a in words {
        for b in words {
            assert_eq!(levenshtein(a, b), levenshtein(b, a));
        }
    }
}

#[test]
fn distance_to_itself_is_zero() {
    for a in ["", "a", "kitten", "héllo"] {
        assert_eq!(levenshtein(a, a), 0);
    }
    let long = "xyz".repeat(50);
    assert_eq!(levenshtein(&long, &long), 0);
}

#[test]
fn distance_is_zero_only_between_equal_strings() {
    assert_ne!(levenshtein("a", "b"), 0);
    assert_ne!(levenshtein("ab", "abc"), 0);
    assert_ne!(levenshtein("", "x"), 0);
}

#[test]
fn distance_to_empty_counts_characters() {
    assert_eq!(levenshtein("héllo", ""), 5);
    assert_eq!(levenshtein("", "日本語"), 3);
    assert_eq!(levenshtein(&"é".repeat(70), ""), 70);
}

#[test]
fn known_distances() {
    assert_eq!(levenshtein("kitten", "sitting"), 3);
    assert_eq!(levenshtein("flaw", "lawn"), 2);
    assert_eq!(levenshtein("saturday", "sunday"), 3);
}

#[test]
fn triangle_inequality_on_samples() {
    let mut seed = 7;
    for _ in 0..40 {
        let a = sample(&mut seed, 9, &['a', 'b', 'c']);
        let b = sample(&mut seed, 7, &['a', 'b', 'c']);
        let c = sample(&mut seed, 11, &['a', 'b', 'c']);
        assert!(levenshtein(&a, &c) <= levenshtein(&a, &b) + levenshtein(&b, &c));
    }
}

#[test]
fn both_kinds_of_state_agree_around_the_word_width() {
    let mut seed = 11;
    for len_a in [0usize, 1, 62, 63, 64, 65, 66, 130] {
        for len_b in [0usize, 1, 63, 64, 65, 100] {
            let a = sample(&mut seed, len_a, &['a', 'b']);
            let b = sample(&mut seed, len_b, &['a', 'b']);
            let expected = table_distance(&a, &b);
            assert_eq!(LevenshteinAutomaton::new(&a).distance(&b), expected);
            assert_eq!(LevenshteinAutomaton::new(&b).distance(&a), expected);
            assert_eq!(levenshtein(&a, &b), expected);
            assert_eq!(levenshtein(&b, &a), expected);
        }
    }
}

#[test]
fn full_word_pattern() {
    let p = "abcdefgh".repeat(8);
    assert_eq!(p.chars().count(), 64);
    let automaton = LevenshteinAutomaton::new(&p);
    assert_eq!(automaton.distance(&p), 0);
    assert_eq!(automaton.distance(""), 64);
    assert_eq!(automaton.distance(&p[1..]), 1);
    assert_eq!(automaton.distance(&"h".repeat(64)), 56);
}

#[test]
fn feeding_characters_one_at_a_time_gives_the_distance() {
    let mut seed = 3;
    for len_p in [0usize, 5, 64, 65, 90] {
        for len_t in [0usize, 4, 70] {
            let p = sample(&mut seed, len_p, &['x', 'y', 'z']);
            let t = sample(&mut seed, len_t, &['x', 'y', 'z']);
            let automaton = LevenshteinAutomaton::new(&p);
            let mut state = automaton.start();
            assert_eq!(state.distance(), len_p as u32);
            let mut seen = String::new();
            for c in t.chars() {
                state = state.step(c);
                seen.push(c);
                assert_eq!(state.distance(), table_distance(&p, &seen));
            }
            assert_eq!(state.distance(), levenshtein(&p, &t));
        }
    }
}

#[test]
fn step_mut_and_step_agree() {
    let automaton = LevenshteinAutomaton::new("kitten");
    let mut a = automaton.start();
    let mut b = automaton.start();
    for c in "sitting".chars() {
        a.step_mut(c);
        b = b.step(c);
        assert_eq!(a.distance(), b.distance());
    }
    assert_eq!(a.distance(), 3);
}

#[test]
fn step_leaves_the_state_it_starts_from() {
    let automaton = LevenshteinAutomaton::new("abc");
    let start = automaton.start();
    let one = start.step('a');
    let other = start.step('x');
    assert_eq!(start.distance(), 3);
    assert_eq!(one.distance(), 2);
    assert_eq!(other.distance(), 3);
}

#[test]
fn can_match_is_the_least_entry_of_the_column() {
    let mut seed = 5;
    for len_p in [0usize, 1, 3, 8, 63, 64, 65, 80] {
        for len_t in [0usize, 1, 2, 5, 9, 70] {
            for _ in 0..4 {
                let p = sample(&mut seed, len_p, &['a', 'b', 'c']);
                let t = sample(&mut seed, len_t, &['a', 'b', 'c']);
                let automaton = LevenshteinAutomaton::new(&p);
                let mut state = automaton.start();
                let mut seen = String::new();
                for c in t.chars() {
                    state.step_mut(c);
                    seen.push(c);
                    let least = table_reach(&p, &seen);
                    assert!(state.can_match(least));
                    assert!(state.can_match(u32::MAX));
                    if least > 0 {
                        assert!(!state.can_match(least - 1));
                    }
                }
            }
        }
    }
}

#[test]
fn empty_pattern_automaton() {
    let automaton = LevenshteinAutomaton::new("");
    let mut state = automaton.start();
    assert_eq!(state.distance(), 0);
    assert!(state.can_match(0));
    state = state.step('a');
    assert_eq!(state.distance(), 1);
    assert!(!state.can_match(0));
    assert!(state.can_match(1));
}

#[test]
fn extract_keeps_the_first_of_equal_distances() {
    assert_eq!(
        levenshtein_extract("bar", vec!["baz", "bat", "car"]),
        Some((String::from("baz"), 1, 0))
    );
    assert_eq!(
        levenshtein_extract("bar", vec!["xyz", "bat", "baz"]),
        Some((String::from("bat"), 1, 1))
    );
}

#[test]
fn extract_finds_an_exact_match_behind_others() {
    assert_eq!(
        levenshtein_extract("bar", vec!["baz", "bar", "bar"]),
        Some((String::from("bar"), 0, 1))
    );
}

#[test]
fn extract_on_empty_strings() {
    assert_eq!(
        levenshtein_extract("", vec!["abc", "", "a"]),
        Some((String::new(), 0, 1))
    );
    assert_eq!(levenshtein_extract("", vec![]), None);
}
