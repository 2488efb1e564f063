use fuzz::fuzzyfinder::algo::{is_scorable, score, smith_waterman_score};
use fuzz::fuzzyfinder::align::{alignment_score, GAP, MATCH};

fn s(text: &str) -> String {
    text.to_string()
}

fn chars(text: &str) -> Vec<char> {
    text.chars().collect()
}

#[test]
fn rewards_and_penalties_are_sixteen_and_one() {
    assert_eq!(MATCH, 16);
    assert_eq!(GAP, 1);
}

#[test]
fn empty_query_scores_zero_against_everything() {
    assert_eq!(score(&s(""), &s("apple")), 0);
    assert_eq!(score(&s(""), &s("")), 0);
    assert_eq!(score(&s(""), &s("ZZZ")), 0);
}

#[test]
fn empty_candidate_scores_zero() {
    assert_eq!(score(&s("abc"), &s("")), 0);
    assert_eq!(smith_waterman_score(&s("abc"), &s("")), 0);
}

#[test]
fn prefix_match_scores_sixteen_per_scalar() {
    assert_eq!(score(&s("app"), &s("apple")), 48);
    assert_eq!(score(&s("app"), &s("apply")), 48);
}

#[test]
fn match_in_the_middle_is_found() {
    assert_eq!(score(&s("ui"), &s("gui.rs")), 32);
    assert_eq!(score(&s("abc"), &s("xxabcxx")), 48);
}

#[test]
fn score_ignores_case() {
    assert_eq!(score(&s("ABC"), &s("abc")), 48);
    assert_eq!(score(&s("abc"), &s("ABC")), 48);
    assert_eq!(score(&s("ABC"), &s("abc")), score(&s("abc"), &s("ABC")));
    assert_eq!(score(&s("aBc"), &s("AbC")), 48);
}

#[test]
fn score_ignores_case_beyond_ascii() {
    assert_eq!(score(&s("\u{c9}t\u{c9}"), &s("\u{e9}t\u{e9}")), 48);
    assert_eq!(score(&s("\u{3a9}"), &s("\u{3c9}")), 16);
}

#[test]
fn a_gap_costs_one() {
    assert_eq!(score(&s("ac"), &s("abc")), 31);
    assert_eq!(score(&s("abc"), &s("ac")), 31);
    assert_eq!(score(&s("ab"), &s("a_____b")), 27);
}

#[test]
fn a_long_gap_is_given_up_for_a_fresh_start() {
    assert_eq!(score(&s("ab"), &s("a_________________b")), 16);
    assert_eq!(score(&s("abcd"), &s("ab__________________cd")), 46);
    assert_eq!(score(&s("abcd"), &s("ab________________________________cd")), 32);
}

#[test]
fn unequal_scalars_are_never_aligned() {
    assert_eq!(score(&s("abc"), &s("xyz")), 0);
    assert_eq!(score(&s("abc"), &s("xbz")), 16);
    assert_eq!(score(&s("abc"), &s("axc")), 30);
}

#[test]
fn the_best_cell_need_not_be_the_last() {
    assert_eq!(score(&s("abz"), &s("ab")), 32);
    assert_eq!(score(&s("ab"), &s("abzzzz")), 32);
    assert_eq!(score(&s("zzab"), &s("abzz")), 32);
}

#[test]
fn exact_match_scores_highest_among_equal_lengths() {
    let exact = score(&s("hello"), &s("HELLO"));
    assert_eq!(exact, 80);
    for other in ["hallo", "hellx", "xello", "olleh", "hxllo", "world"] {
        assert!(score(&s("hello"), &s(other)) <= exact);
    }
    assert_eq!(score(&s("hello"), &s("hallo")), 62);
}

#[test]
fn smith_waterman_score_folds_both_texts() {
    assert_eq!(smith_waterman_score(&s("MAIN"), &s("main.rs")), 64);
    assert_eq!(smith_waterman_score(&s("main"), &s("MAIN.RS")), 64);
    assert_eq!(smith_waterman_score(&s(""), &s("main")), 0);
}

#[test]
fn alignment_score_compares_scalars_as_they_are() {
    assert_eq!(alignment_score(&chars("ab"), &chars("ab")), 32);
    assert_eq!(alignment_score(&chars("A"), &chars("a")), 0);
    assert_eq!(alignment_score(&chars(""), &chars("abc")), 0);
    assert_eq!(alignment_score(&chars("abc"), &chars("")), 0);
    assert_eq!(alignment_score(&chars("kitten"), &chars("sitting")), 62);
}

#[test]
fn alignment_score_is_symmetric_on_samples() {
    for (a, b) in [("ac", "abc"), ("hello", "yellow"), ("", "x"), ("abcabc", "cab")] {
        assert_eq!(alignment_score(&chars(a), &chars(b)), alignment_score(&chars(b), &chars(a)));
    }
}

#[test]
fn ordinary_queries_are_scorable() {
    assert!(is_scorable(&s("")));
    assert!(is_scorable(&s("app")));
    assert!(is_scorable(&s("\u{130}stanbul")));
}

fn full_grid(a: &[char], b: &[char]) -> usize {
    let mut grid = vec![vec![0i64; b.len() + 1]; a.len() + 1];
    let mut best = 0i64;
    for i in 1..=a.len() {
        for j in 1..=b.len() {
            let mut value = 0i64;
            if a[i - 1] == b[j - 1] {
                value = value.max(grid[i - 1][j - 1] + 16);
            }
            value = value.max(grid[i - 1][j] - 1);
            value = value.max(grid[i][j - 1] - 1);
            grid[i][j] = value;
            best = best.max(value);
        }
    }
    best as usize
}

#[test]
fn rolling_row_agrees_with_the_full_grid() {
    let samples = [
        "", "a", "ab", "ba", "abc", "acb", "aaaa", "abab", "baba", "banana", "bandana",
        "main.rs", "ui.rs", "algo.rs", "src/fuzzyfinder/ui.rs", "a_b_c_d_e_f", "fedcba",
        "the quick brown fox", "quick fix", "xxxxxxxxxxxxxxxxxxxxxxxxay", "ya",
    ];
    for x in samples {
        for y in samples {
            assert_eq!(alignment_score(&chars(x), &chars(y)), full_grid(&chars(x), &chars(y)));
            assert_eq!(score(&s(x), &s(y)), if x.is_empty() { 0 } else { full_grid(&chars(x), &chars(y)) });
        }
    }
}

#[test]
fn score_never_exceeds_sixteen_per_scalar_of_the_shorter_text() {
    for (q, c) in [("app", "apple"), ("apple", "app"), ("zzz", "a"), ("abcabc", "abc"), ("a", "aaaa")] {
        let bound = 16 * q.len().min(c.len());
        assert!(score(&s(q), &s(c)) <= bound);
    }
    assert_eq!(score(&s("abcabc"), &s("abc")), 48);
    assert_eq!(score(&s("a"), &s("aaaa")), 16);
}
