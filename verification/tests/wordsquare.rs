use wordsquare::error::WordSquareError;
use wordsquare::grid_search::get_next_coord;
use wordsquare::grid_search::solve;
use wordsquare::prefix_dict::PrefixDictionary;

fn word(s: &str) -> Vec<char> {
    s.chars().collect()
}

fn dict_of(words: &[&str]) -> PrefixDictionary {
    let mut d = PrefixDictionary::new();
    for w in words {
        d.insert(&word(w)).unwrap();
    }
    d
}

fn grid(rows: &[&str]) -> Vec<Vec<char>> {
    rows.iter().map(|r| word(r)).collect()
}

#[test]
fn empty_word_rejected() {
    let mut d = PrefixDictionary::new();
    assert_eq!(d.insert(&word("")), Err(WordSquareError::InvalidWord));
    assert_eq!(d.insert(&word("CAT")), Ok(()));
}

#[test]
fn continuations_basic() {
    let d = dict_of(&["CAT", "CAR", "DOG"]);
    let ca = d.continuations(&word("CA")).unwrap();
    assert_eq!(ca.symbols, word("TR"));
    assert!(!ca.end_of_word);
    let root = d.continuations(&word("")).unwrap();
    assert_eq!(root.symbols, word("CD"));
    assert!(!root.end_of_word);
    let cat = d.continuations(&word("CAT")).unwrap();
    assert!(cat.symbols.is_empty());
    assert!(cat.end_of_word);
    assert!(d.continuations(&word("CATS")).is_none());
    assert!(d.continuations(&word("X")).is_none());
}

#[test]
fn continuations_prefix_of_every_inserted_word_is_present() {
    let d = dict_of(&["SLATE", "SLAM"]);
    for p in ["", "S", "SL", "SLA", "SLAT", "SLATE"] {
        assert!(d.continuations(&word(p)).is_some());
    }
    assert!(d.continuations(&word("SLATE")).unwrap().end_of_word);
    assert!(!d.continuations(&word("SLAT")).unwrap().end_of_word);
}

#[test]
fn empty_dictionary_has_no_continuations() {
    let d = PrefixDictionary::new();
    assert!(d.continuations(&word("")).is_none());
}

#[test]
fn insert_is_idempotent() {
    let mut d = PrefixDictionary::new();
    d.insert(&word("CAT")).unwrap();
    d.insert(&word("CAT")).unwrap();
    assert_eq!(d.words_of_length(3), vec![word("CAT")]);
}

#[test]
fn words_of_length_filters_exactly() {
    let d = dict_of(&["CAT", "CARS", "DOG", "AT"]);
    let three = d.words_of_length(3);
    assert_eq!(three.len(), 2);
    assert!(three.contains(&word("CAT")));
    assert!(three.contains(&word("DOG")));
    assert_eq!(d.words_of_length(2), vec![word("AT")]);
    assert_eq!(d.words_of_length(4), vec![word("CARS")]);
    assert!(d.words_of_length(5).is_empty());
}

#[test]
fn restricted_to_length_keeps_only_that_length() {
    let d = dict_of(&["CAT", "DOG", "AT", "TO"]);
    let two = d.restricted_to_length(2);
    let mut ws = two.words_of_length(2);
    ws.sort();
    assert_eq!(ws, vec![word("AT"), word("TO")]);
    assert!(two.words_of_length(3).is_empty());
    assert!(two.continuations(&word("C")).is_none());
}

#[test]
fn next_coord_walks_the_grid_in_diagonal_order() {
    let mut seen = vec![(0usize, 0usize)];
    let mut cur = (0usize, 0usize);
    while let Some(q) = get_next_coord(cur, 3) {
        seen.push(q);
        cur = q;
    }
    assert_eq!(
        seen,
        vec![
            (0, 0),
            (0, 1),
            (1, 0),
            (0, 2),
            (1, 1),
            (2, 0),
            (1, 2),
            (2, 1),
            (2, 2),
        ]
    );
    assert_eq!(get_next_coord((0, 0), 1), None);
}

#[test]
fn solve_rejects_grid_size_zero() {
    let d = PrefixDictionary::new();
    assert_eq!(solve(0, &d), Err(WordSquareError::InvalidGridSize));
}

#[test]
fn solve_with_empty_dictionary_returns_empty_list() {
    let d = PrefixDictionary::new();
    assert_eq!(solve(2, &d), Ok(vec![]));
}

#[test]
fn solve_unit_grid_returns_one_solution_per_single_symbol_word() {
    let d = dict_of(&["A", "B"]);
    let sols = solve(1, &d).unwrap();
    assert_eq!(sols, vec![grid(&["A"]), grid(&["B"])]);
}

#[test]
fn solve_two_by_two_fixture() {
    let d = dict_of(&["AT", "TO"]);
    let sols = solve(2, &d).unwrap();
    assert_eq!(sols, vec![grid(&["AT", "TO"])]);
}

#[test]
fn solve_full_alphabet_square() {
    let d = dict_of(&["AA", "AB", "BA", "BB"]);
    let sols = solve(2, &d).unwrap();
    assert_eq!(sols.len(), 16);
    assert!(sols.contains(&grid(&["AB", "BA"])));
    for s in &sols {
        for r in s {
            assert_eq!(r.len(), 2);
        }
    }
}

#[test]
fn solve_matches_brute_force_enumeration() {
    let d = dict_of(&["AT", "TO"]);
    let two = d.words_of_length(2);
    let alphabet = ['A', 'T', 'O'];
    let mut expected: Vec<Vec<Vec<char>>> = Vec::new();
    for c00 in alphabet {
        for c01 in alphabet {
            for c10 in alphabet {
                for c11 in alphabet {
                    let rows = vec![vec![c00, c01], vec![c10, c11]];
                    let cols = vec![vec![c00, c10], vec![c01, c11]];
                    if rows.iter().all(|w| two.contains(w)) && cols.iter().all(|w| two.contains(w))
                    {
                        expected.push(rows);
                    }
                }
            }
        }
    }
    let mut sols = solve(2, &d).unwrap();
    sols.sort();
    expected.sort();
    assert_eq!(sols, expected);
}

#[test]
fn solve_via_restricted_dictionary() {
    let d = dict_of(&["CAT", "DOG", "AT", "TO", "X"]);
    let reduced = d.restricted_to_length(2);
    let sols = solve(2, &reduced).unwrap();
    assert_eq!(sols, vec![grid(&["AT", "TO"])]);
}

#[test]
fn solve_three_by_three() {
    // Rows and columns of the known latin-style square BAT / ABA / TAB.
    let d = dict_of(&["BAT", "ABA", "TAB"]);
    let sols = solve(3, &d).unwrap();
    assert!(sols.contains(&grid(&["BAT", "ABA", "TAB"])));
    for s in &sols {
        for r in 0..3 {
            let row: Vec<char> = s[r].clone();
            let col: Vec<char> = (0..3).map(|t| s[t][r]).collect();
            let three = d.words_of_length(3);
            assert!(three.contains(&row));
            assert!(three.contains(&col));
        }
    }
}
