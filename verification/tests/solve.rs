use five_words::expand::compile_results;
use five_words::groups::group_words;
use five_words::mask::get_mask;
use five_words::search::StepSolver;
use five_words::solve;
use five_words::solve_with_units;
use five_words::write_results_csv;

fn sorted(mut row: Vec<&str>) -> Vec<&str> {
    row.sort();
    row
}

#[test]
fn mask_of_distinct_letters() {
    assert_eq!(get_mask("abcde"), Some(0b11111));
    assert_eq!(get_mask("ab"), Some(0b11));
    assert_eq!(get_mask(""), Some(0));
    assert_eq!(get_mask("zy"), Some(0b11 << 24));
}

#[test]
fn mask_of_repeated_letter_is_none() {
    assert_eq!(get_mask("aabcd"), None);
    assert_eq!(get_mask("abcda"), None);
    assert_eq!(get_mask("zz"), None);
}

#[test]
fn disjoint_cover_yields_one_row() {
    let words = vec!["abcde", "fghij", "klmno", "pqrst", "uvwxy"];
    let results = solve(words.clone());
    assert_eq!(results.len(), 1);
    assert_eq!(sorted(results[0].clone()), sorted(words));
}

#[test]
fn shared_letter_everywhere_yields_nothing() {
    let words = vec!["abcde", "afghi", "ajklm", "anopq", "arstu"];
    let results = solve(words);
    assert_eq!(results.len(), 0);
}

#[test]
fn empty_dictionary_yields_nothing() {
    let results = solve(vec![]);
    assert_eq!(results.len(), 0);
}

#[test]
fn wrong_length_and_repeats_are_dropped() {
    let words = vec![
        "abcdef", "abcd", "aabbc", "abcde", "fghij", "klmno", "pqrst", "uvwxy",
    ];
    let results = solve(words);
    assert_eq!(results.len(), 1);
}

#[test]
fn anagrams_multiply_rows() {
    let words = vec!["abcde", "edcba", "fghij", "klmno", "pqrst", "uvwxy"];
    let results = solve(words);
    // One mask combination, expanded over the two anagrams of one letter-set.
    assert_eq!(results.len(), 2);
    let m = |row: &Vec<&str>| -> Vec<Option<u32>> {
        let mut ms: Vec<Option<u32>> = row.iter().map(|w| get_mask(w)).collect();
        ms.sort();
        ms
    };
    // The two rows share the same set of letter-masks and differ only in the
    // word chosen for the shared letter-set.
    assert_eq!(m(&results[0]), m(&results[1]));
    assert_ne!(sorted(results[0].clone()), sorted(results[1].clone()));
}

#[test]
fn every_row_has_five_five_letter_words_with_25_distinct_letters() {
    let words = vec![
        "abcde", "edcba", "fghij", "klmno", "pqrst", "uvwxy", "vwxyz", "bcdef",
    ];
    let results = solve(words);
    assert!(!results.is_empty());
    for row in &results {
        assert_eq!(row.len(), 5);
        let mut letters: Vec<u8> = Vec::new();
        for word in row {
            assert_eq!(word.len(), 5);
            letters.extend(word.bytes());
        }
        letters.sort();
        letters.dedup();
        assert_eq!(letters.len(), 25);
    }
}

#[test]
fn solving_twice_gives_the_same_rows() {
    let words = vec!["abcde", "edcba", "fghij", "klmno", "pqrst", "uvwxy", "vwxyz"];
    let first = solve(words.clone());
    let second = solve(words);
    assert_eq!(first, second);
}

#[test]
fn unit_count_does_not_change_the_rows() {
    let words = vec!["abcde", "edcba", "fghij", "klmno", "pqrst", "uvwxy", "vwxyz"];
    let sequential = solve(words.clone());
    for units in 1..=6 {
        let banded = solve_with_units(words.clone(), units);
        assert_eq!(banded, sequential);
    }
}

#[test]
fn removing_a_word_never_increases_the_count() {
    let base = vec!["abcde", "edcba", "fghij", "klmno", "pqrst", "uvwxy"];
    let base_count = solve(base.clone()).len();
    assert_eq!(base_count, 2);
    for leave_out in 0..base.len() {
        let mut fewer = base.clone();
        fewer.remove(leave_out);
        assert!(solve(fewer).len() <= base_count);
    }
    let mut more = base.clone();
    more.push("deabc");
    assert!(solve(more).len() >= base_count);
}

#[test]
fn removing_a_dropped_word_changes_nothing() {
    let clean = vec!["abcde", "edcba", "fghij", "klmno", "pqrst", "uvwxy"];
    let mut dirty = clean.clone();
    dirty.insert(2, "aabcd");
    dirty.insert(5, "toolong");
    assert_eq!(solve(dirty), solve(clean));
}

#[test]
fn grouping_merges_exact_anagrams() {
    let words = vec!["abcde", "edcba", "fghij", "abcd"];
    let groups = group_words(&words);
    assert_eq!(groups.masks, vec![0b11111, get_mask("fghij").unwrap()]);
    assert_eq!(groups.words, vec![vec!["abcde", "edcba"], vec!["fghij"]]);
}

#[test]
fn expansion_is_the_cross_product_of_the_groups() {
    let words = vec!["abcde", "edcba", "fghij"];
    let groups = group_words(&words);
    let combo = vec![get_mask("abcde").unwrap(), get_mask("fghij").unwrap()];
    let rows = compile_results(&combo, &groups);
    // The first mask's word is appended to each expanded row of the rest.
    assert_eq!(rows, vec![vec!["fghij", "abcde"], vec!["fghij", "edcba"]]);
}

#[test]
fn search_keeps_only_disjoint_masks_in_increasing_order() {
    let masks: Vec<u32> = vec![1, 2, 3];
    let solver = StepSolver {
        previous_letters: 0,
        requested_len: 2,
        first_step_end_idx: 3,
    };
    let mut results: Vec<Vec<u32>> = Vec::new();
    solver.next_step(&masks, &mut results);
    // Only 1 and 2 are disjoint; 3 overlaps both. The combination is
    // assembled on unwind, deepest-chosen mask first.
    assert_eq!(results, vec![vec![2, 1]]);
}

#[test]
fn csv_lines_are_comma_separated_and_newline_terminated() {
    let rows = vec![
        vec!["abcde", "fghij", "klmno", "pqrst", "uvwxy"],
        vec!["vwxyz", "abcde", "fghij", "klmno", "pqrst"],
    ];
    let text = write_results_csv(&rows);
    assert_eq!(
        text,
        "abcde, fghij, klmno, pqrst, uvwxy\nvwxyz, abcde, fghij, klmno, pqrst\n"
    );
}

#[test]
fn csv_of_no_rows_is_empty() {
    let rows: Vec<Vec<&str>> = Vec::new();
    assert_eq!(write_results_csv(&rows), "");
}
