use std::collections::HashSet;

use bazaar_tui::app::distance::bounded_lev;
use bazaar_tui::app::search::{
    best_consecutive_streak, boundary_hits, is_acronym_subsequence, is_subsequence,
    score_normalized, subsequence_positions, token_exact_matches, token_overlap_count,
    token_prefix_matches, tokenize, EXACT_SCORE, MIN_SCORE,
};

fn owned(tokens: &[&str]) -> Vec<String> {
    tokens.iter().map(|t| t.to_string()).collect()
}

/// The whole table of edit distances, filled without any early exit.
fn full_distance(a: &str, b: &str) -> usize {
    let (a, b) = (a.as_bytes(), b.as_bytes());
    let mut table = vec![vec![0usize; b.len() + 1]; a.len() + 1];
    for i in 0..=a.len() {
        table[i][0] = i;
    }
    for j in 0..=b.len() {
        table[0][j] = j;
    }
    for i in 1..=a.len() {
        for j in 1..=b.len() {
            let cost = if a[i - 1] == b[j - 1] { 0 } else { 1 };
            table[i][j] = (table[i - 1][j] + 1)
                .min(table[i][j - 1] + 1)
                .min(table[i - 1][j - 1] + cost);
        }
    }
    table[a.len()][b.len()]
}

const WORDS: [&str; 14] = [
    "",
    "a",
    "b",
    "ab",
    "ba",
    "abc",
    "book",
    "back",
    "kitten",
    "sitting",
    "enchanted book",
    "ender pearl",
    "éclair",
    "eclair",
];

#[test]
fn min_score_is_half_of_the_least_i32() {
    assert_eq!(MIN_SCORE, i32::MIN / 2);
    assert_eq!(EXACT_SCORE, 500);
}

#[test]
fn score_of_a_text_against_itself_is_500() {
    for w in WORDS {
        if !w.is_empty() {
            assert_eq!(score_normalized(w, w), 500);
        }
    }
}

#[test]
fn score_with_an_empty_side_is_the_minimum() {
    for w in WORDS {
        assert_eq!(score_normalized("", w), MIN_SCORE);
        assert_eq!(score_normalized(w, ""), MIN_SCORE);
    }
}

#[test]
fn score_of_non_empty_texts_is_above_the_minimum() {
    for q in WORDS {
        for c in WORDS {
            if !q.is_empty() && !c.is_empty() {
                assert!(score_normalized(q, c) >= -60);
            }
        }
    }
}

#[test]
fn score_adds_acronym_and_boundary_bonuses() {
    // subsequence 60, streak 6, two boundaries 16, acronym 45, distance -48, length -12
    assert_eq!(score_normalized("eb", "enchanted book"), 67);
}

#[test]
fn score_without_any_match_is_only_penalties() {
    // distance 4 edits -48, length difference 2
    assert_eq!(score_normalized("eb", "book"), -50);
    // distance capped -48, length difference 9
    assert_eq!(score_normalized("eb", "ender pearl"), -57);
    // length difference capped at 12
    assert_eq!(score_normalized("zz", "a very long candidate text"), -60);
}

#[test]
fn score_counts_shared_tokens_twice() {
    // subsequence 60 + streak 24 + boundary 8, token 40 + 18, token prefix 24,
    // distance -48, length -10
    assert_eq!(score_normalized("book", "enchanted book"), 116);
}

#[test]
fn score_adds_the_prefix_bonus() {
    // prefix 120, subsequence 60 + 54 + 8, tokens 40 + 24 + 18, distance -48, length -5
    assert_eq!(score_normalized("enchanted", "enchanted book"), 271);
    // prefix 120, subsequence 60 + 6 + 8, tokens 82, acronym 45, distance -24, length -2
    assert_eq!(score_normalized("a", "a b"), 295);
}

#[test]
fn score_measures_lengths_and_offsets_in_bytes() {
    // prefix 120, subsequence 60 + 6 (the two offsets are 0 and 2) + 8, one token
    // prefix 24, distance 1 edit -12, length difference 1
    assert_eq!(score_normalized("éc", "écl"), 205);
}

#[test]
fn bounded_lev_is_the_distance_up_to_the_bound() {
    assert_eq!(bounded_lev("kitten", "sitting", 3), 3);
    assert_eq!(bounded_lev("flaw", "lawn", 3), 2);
    assert_eq!(bounded_lev("abc", "abc", 3), 0);
    assert_eq!(bounded_lev("saturday", "sunday", 3), 3);
    assert_eq!(bounded_lev("", "abc", 3), 3);
    assert_eq!(bounded_lev("abc", "", 3), 3);
    assert_eq!(bounded_lev("", "", 3), 0);
}

#[test]
fn bounded_lev_reports_one_more_than_the_bound_above_it() {
    assert_eq!(bounded_lev("intention", "execution", 3), 4);
    assert_eq!(bounded_lev("kitten", "sitting", 2), 3);
    assert_eq!(bounded_lev("", "abcdef", 3), 4);
    assert_eq!(bounded_lev("abcdefgh", "", 3), 4);
    assert_eq!(bounded_lev("abc", "xyz", 0), 1);
    assert_eq!(bounded_lev("eb", "enchanted book", 3), 4);
}

#[test]
fn bounded_lev_with_bound_3_is_the_lesser_of_the_distance_and_4() {
    for a in WORDS {
        for b in WORDS {
            assert_eq!(bounded_lev(a, b, 3), full_distance(a, b).min(4), "for {a:?} and {b:?}");
        }
    }
}

#[test]
fn bounded_lev_counts_bytes() {
    assert_eq!(bounded_lev("éclair", "eclair", 3), 2);
}

#[test]
fn is_subsequence_follows_the_order() {
    assert!(is_subsequence("ace", "abcde"));
    assert!(!is_subsequence("aec", "abcde"));
    assert!(is_subsequence("", "abc"));
    assert!(is_subsequence("", ""));
    assert!(!is_subsequence("a", ""));
    assert!(!is_subsequence("aa", "a"));
}

#[test]
fn subsequence_positions_are_the_first_matches() {
    assert_eq!(subsequence_positions("eb", "enchanted book"), Some(vec![0, 10]));
    assert_eq!(subsequence_positions("aa", "banana"), Some(vec![1, 3]));
    assert_eq!(subsequence_positions("book", "enchanted book"), Some(vec![10, 11, 12, 13]));
}

#[test]
fn subsequence_positions_are_none_without_a_full_match() {
    assert_eq!(subsequence_positions("", "abc"), None);
    assert_eq!(subsequence_positions("xyz", "abc"), None);
    assert_eq!(subsequence_positions("abcd", "abc"), None);
    assert_eq!(subsequence_positions("ba", "ab"), None);
    assert_eq!(subsequence_positions("a", ""), None);
}

#[test]
fn subsequence_positions_are_byte_offsets() {
    assert_eq!(subsequence_positions("b", "éb"), Some(vec![2]));
    assert_eq!(subsequence_positions("éb", "aébc"), Some(vec![1, 3]));
    assert_eq!(subsequence_positions("c", "a\u{1F600}c"), Some(vec![5]));
}

#[test]
fn best_consecutive_streak_is_the_longest_run() {
    assert_eq!(best_consecutive_streak(&[]), 0);
    assert_eq!(best_consecutive_streak(&[3]), 1);
    assert_eq!(best_consecutive_streak(&[0, 1, 2, 5, 6]), 3);
    assert_eq!(best_consecutive_streak(&[0, 2, 4]), 1);
    assert_eq!(best_consecutive_streak(&[0, 2, 3, 4, 5, 9]), 4);
    assert_eq!(best_consecutive_streak(&[usize::MAX - 1, usize::MAX]), 2);
}

#[test]
fn boundary_hits_counts_starts_of_words() {
    assert_eq!(boundary_hits(&[0, 10], "enchanted book"), 2);
    assert_eq!(boundary_hits(&[1, 9, 11], "enchanted book"), 0);
    assert_eq!(boundary_hits(&[], "enchanted book"), 0);
    assert_eq!(boundary_hits(&[0], ""), 1);
    // nothing follows the last space
    assert_eq!(boundary_hits(&[2], "a "), 0);
    assert_eq!(boundary_hits(&[0, 0, 2], "a b"), 3);
}

#[test]
fn tokenize_splits_at_whitespace() {
    assert_eq!(tokenize("enchanted book"), ["enchanted", "book"]);
    assert_eq!(tokenize("  a  b "), ["a", "b"]);
    assert!(tokenize("").is_empty());
    assert!(tokenize("   ").is_empty());
}

#[test]
fn token_exact_matches_counts_distinct_shared_tokens() {
    assert_eq!(token_exact_matches(&owned(&["a", "b", "a"]), &owned(&["a", "c", "a"])), 1);
    assert_eq!(token_exact_matches(&owned(&["a", "b"]), &owned(&["b", "a", "c"])), 2);
    assert_eq!(token_exact_matches(&owned(&["a"]), &owned(&["ab"])), 0);
    assert_eq!(token_exact_matches(&owned(&[]), &owned(&["a"])), 0);
    assert_eq!(token_overlap_count(&owned(&["a", "b"]), &owned(&["b", "a", "c"])), 2);
}

#[test]
fn token_prefix_matches_counts_each_query_token() {
    let candidate = owned(&["enchanted", "book"]);
    assert_eq!(token_prefix_matches(&owned(&["en", "bo", "x", "en"]), &candidate), 3);
    assert_eq!(token_prefix_matches(&owned(&["book", "books"]), &candidate), 1);
    assert_eq!(token_prefix_matches(&owned(&["en"]), &owned(&[])), 0);
}

#[test]
fn is_acronym_subsequence_needs_enough_tokens() {
    let tokens = owned(&["enchanted", "book"]);
    assert!(is_acronym_subsequence("eb", &tokens));
    assert!(is_acronym_subsequence("e", &tokens));
    assert!(is_acronym_subsequence("b", &tokens));
    assert!(!is_acronym_subsequence("be", &tokens));
    assert!(!is_acronym_subsequence("ebx", &tokens));
    assert!(!is_acronym_subsequence("eb", &owned(&[])));
    // two bytes for one character, and one token
    assert!(!is_acronym_subsequence("é", &owned(&["éclair"])));
}

/// The score computed with the iterators and sets of the standard library.
fn expected_score(query: &str, candidate: &str) -> i32 {
    if query.is_empty() || candidate.is_empty() {
        return MIN_SCORE;
    }
    if query == candidate {
        return 500;
    }
    let mut score = 0i32;
    if candidate.starts_with(query) {
        score += 120;
    }
    let mut positions: Vec<usize> = Vec::new();
    let mut rest = candidate.char_indices();
    let mut matched = true;
    for ch in query.chars() {
        match rest.by_ref().find(|(_, c)| *c == ch) {
            Some((at, _)) => positions.push(at),
            None => {
                matched = false;
                break;
            }
        }
    }
    if matched && !positions.is_empty() {
        score += 60;
        let mut best = 1;
        let mut run = 1;
        for pair in positions.windows(2) {
            if pair[1] == pair[0] + 1 {
                run += 1;
                best = best.max(run);
            } else {
                run = 1;
            }
        }
        score += best * 6;
        let mut boundaries: HashSet<usize> = HashSet::new();
        boundaries.insert(0);
        for (at, ch) in candidate.char_indices() {
            if ch == ' ' && at + 1 < candidate.len() {
                boundaries.insert(at + 1);
            }
        }
        score += positions.iter().filter(|p| boundaries.contains(p)).count() as i32 * 8;
    }
    let q_tokens: Vec<&str> = query.split_whitespace().collect();
    let c_tokens: Vec<&str> = candidate.split_whitespace().collect();
    let q_set: HashSet<&str> = q_tokens.iter().copied().collect();
    let c_set: HashSet<&str> = c_tokens.iter().copied().collect();
    let shared = q_set.intersection(&c_set).count() as i32;
    let prefixed =
        q_tokens.iter().filter(|q| c_tokens.iter().any(|c| c.starts_with(*q))).count() as i32;
    score += shared * 40 + prefixed * 24 + shared * 18;
    if !c_tokens.is_empty() && query.len() <= c_tokens.len() {
        let initials: Vec<char> = c_tokens.iter().filter_map(|t| t.chars().next()).collect();
        let mut letters = initials.iter();
        if query.chars().all(|ch| letters.by_ref().any(|c| *c == ch)) {
            score += 45;
        }
    }
    score -= full_distance(query, candidate).min(4) as i32 * 12;
    score -= (candidate.len() as i32 - query.len() as i32).abs().min(12);
    score
}

/// Texts over a few letters, the space and one character of two bytes, in a
/// fixed pseudo-random order.
fn sample_texts(count: usize) -> Vec<String> {
    let letters = ['a', 'b', 'e', 'o', 'k', ' ', ' ', 'é', 'n'];
    let mut state: u64 = 0x2545_F491_4F6C_DD1D;
    let mut next = move || {
        state ^= state << 13;
        state ^= state >> 7;
        state ^= state << 17;
        state
    };
    (0..count)
        .map(|_| {
            let len = (next() % 9) as usize;
            (0..len).map(|_| letters[(next() % letters.len() as u64) as usize]).collect()
        })
        .collect()
}

#[test]
fn score_agrees_with_the_standard_iterators_and_sets() {
    let mut texts = sample_texts(140);
    texts.extend(WORDS.iter().map(|w| w.to_string()));
    for q in &texts {
        for c in &texts {
            assert_eq!(score_normalized(q, c), expected_score(q, c), "for {q:?} and {c:?}");
        }
    }
}

#[test]
fn score_agrees_with_the_standard_iterators_and_sets_on_normal_forms() {
    let texts: Vec<String> =
        sample_texts(160).iter().map(|t| bazaar_tui::util::normalize(t)).collect();
    for q in &texts {
        for c in &texts {
            assert_eq!(score_normalized(q, c), expected_score(q, c), "for {q:?} and {c:?}");
        }
    }
}

#[test]
fn positions_streaks_and_boundaries_agree_on_sample_texts() {
    let texts = sample_texts(120);
    for q in &texts {
        for c in &texts {
            assert_eq!(bounded_lev(q, c, 3), full_distance(q, c).min(4));
            if let Some(positions) = subsequence_positions(q, c) {
                assert_eq!(positions.len(), q.chars().count());
                assert!(positions.windows(2).all(|w| w[0] < w[1]));
                assert!(positions.iter().all(|&p| c.is_char_boundary(p)));
                let found: String =
                    positions.iter().map(|&p| c[p..].chars().next().unwrap()).collect();
                assert_eq!(&found, q);
                assert!(is_subsequence(q, c));
            } else {
                assert!(q.is_empty() || !is_subsequence(q, c));
            }
        }
    }
}
