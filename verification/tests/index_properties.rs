use fm_index::index::BuildError;
use fm_index::index::FMIndex;

fn naive_count(text: &str, pattern: &str) -> usize {
    let t: Vec<char> = text.chars().collect();
    let p: Vec<char> = pattern.chars().collect();
    if p.len() > t.len() {
        return 0;
    }
    let mut count = 0;
    for start in 0..=(t.len() - p.len()) {
        if t[start..start + p.len()] == p[..] {
            count += 1;
        }
    }
    count
}

#[test]
fn roundtrip_reconstructs_text() {
    for text in ["banana", "mississippi", "abracadabra", "a", "zzzzzz", "a!", "x! !y z"] {
        let mut index = FMIndex::new();
        let _ = index.build(text);
        assert_eq!(index.inverse_bwt(), text);
    }
}

#[test]
fn roundtrip_empty_text() {
    let mut index = FMIndex::new();
    assert_eq!(index.build(""), Ok(()));
    assert_eq!(index.inverse_bwt(), "");
    assert_eq!(index.compute_r(), 1);
    assert_eq!(index.backward_search(""), Some((0, 0)));
    assert_eq!(index.count_occurrences(""), 1);
}

#[test]
fn suffix_array_is_permutation() {
    for text in ["mississippi", "a!"] {
        let mut index = FMIndex::new();
        let mut sa = index.construct_suffix_array(text);
        sa.sort();
        let expected: Vec<usize> = (0..text.chars().count() + 1).collect();
        assert_eq!(sa, expected);
    }
}

#[test]
fn sentinel_rotation_is_rank_zero() {
    for text in ["banana", "mississippi", "a!", "! !", ""] {
        let mut index = FMIndex::new();
        let sa = index.construct_suffix_array(text);
        assert_eq!(sa[0], text.chars().count());
    }
}

#[test]
fn bwt_length_and_single_sentinel() {
    let text = "abracadabra";
    let mut index = FMIndex::new();
    index.construct_suffix_array(text);
    let bwt = index.construct_bwt(text);
    assert_eq!(bwt.chars().count(), text.chars().count() + 1);
    assert_eq!(bwt.chars().filter(|&c| c == '$').count(), 1);
}

#[test]
fn lf_mapping_cycles_through_all_rows() {
    for text in ["banana", "a!", "x! !y z"] {
        let mut index = FMIndex::new();
        let _ = index.build(text);
        let n = text.chars().count() + 1;
        for start in 0..n {
            let mut visited = vec![false; n];
            let mut row = start;
            for _ in 0..n {
                assert!(!visited[row]);
                visited[row] = true;
                row = index.lf_mapping(row);
            }
            assert_eq!(row, start);
            assert!(visited.iter().all(|&v| v));
        }
    }
}

#[test]
fn lf_mapping_reaches_predecessor_offset() {
    for text in ["banana", "mississippi", "a!", "x! !y z"] {
        let mut index = FMIndex::new();
        let _ = index.build(text);
        let sa = index.construct_suffix_array(text);
        let n = sa.len();
        for row in 0..n {
            let image = index.lf_mapping(row);
            assert_eq!(sa[image], (sa[row] + n - 1) % n);
        }
    }
}

#[test]
fn symbols_below_sentinel_rank_after_it() {
    let text = "a!";
    let mut index = FMIndex::new();
    assert_eq!(index.construct_suffix_array(text), vec![2, 1, 0]);
    assert_eq!(index.construct_bwt(text), "!a$");
    let _ = index.build(text);
    assert_eq!(index.backward_search("!"), Some((1, 1)));
    assert_eq!(index.backward_search("a!"), Some((2, 2)));
    assert_eq!(index.count_occurrences("!"), 1);
    assert_eq!(index.count_occurrences("a!"), 1);
    assert_eq!(index.inverse_bwt(), text);
    assert_eq!(index.lf_mapping(0), 1);
    assert_eq!(index.lf_mapping(1), 2);
    assert_eq!(index.lf_mapping(2), 0);
}

#[test]
fn count_matches_naive_scan() {
    let text = "mississippi";
    let mut index = FMIndex::new();
    let _ = index.build(text);
    for pattern in [
        "", "m", "i", "s", "p", "si", "ss", "ssi", "issi", "mississippi", "ippi", "x", "ssip",
    ] {
        if pattern.is_empty() {
            assert_eq!(index.count_occurrences(pattern), text.chars().count() + 1);
        } else {
            assert_eq!(
                index.count_occurrences(pattern),
                naive_count(text, pattern),
                "pattern {}",
                pattern
            );
        }
    }
}

#[test]
fn search_width_equals_count() {
    let text = "abracadabra";
    let mut index = FMIndex::new();
    let _ = index.build(text);
    for pattern in ["a", "ab", "abra", "bra", "cad", "d", "zz", ""] {
        match index.backward_search(pattern) {
            Some((top, bottom)) => {
                assert_eq!(index.count_occurrences(pattern), bottom - top + 1);
            }
            None => {
                assert_eq!(index.count_occurrences(pattern), 0);
            }
        }
    }
}

#[test]
fn count_matches_naive_scan_low_symbols() {
    let text = "a! a!b !!";
    let mut index = FMIndex::new();
    let _ = index.build(text);
    for pattern in ["a", "!", " ", "a!", "!b", "a! ", "!!", "! ", "z"] {
        assert_eq!(
            index.count_occurrences(pattern),
            naive_count(text, pattern),
            "pattern {}",
            pattern
        );
    }
}

#[test]
fn compute_r_counts_maximal_runs() {
    let text = "aaaa";
    let mut index = FMIndex::new();
    let _ = index.build(text);
    assert_eq!(index.compute_r(), 2);
}

#[test]
fn build_rejects_sentinel_in_text() {
    let mut index = FMIndex::new();
    assert_eq!(index.build("ab$a"), Err(BuildError::InvalidInput));
    assert_eq!(index.build("$"), Err(BuildError::InvalidInput));
    assert_eq!(index.build("aba"), Ok(()));
    assert_eq!(index.inverse_bwt(), "aba");
}

#[test]
fn find_alphabet_excludes_sentinel() {
    let mut index = FMIndex::new();
    assert_eq!(index.find_alphabet("ab$ba"), vec!['a', 'b']);
}

#[test]
fn multibyte_symbols_are_atomic() {
    let mut index = FMIndex::new();
    let text = "🍌🍍🍌";
    assert_eq!(index.find_alphabet(text), vec!['🍌', '🍍']);
    assert_eq!(index.compute_counts(text), vec![2, 1]);
    let _ = index.build(text);
    assert_eq!(index.count_occurrences("🍌"), 2);
    assert_eq!(index.count_occurrences("🍍"), 1);
    assert_eq!(index.inverse_bwt(), text);
}

#[test]
fn sentinel_pattern_matches_single_row() {
    let text = "banana";
    let mut index = FMIndex::new();
    let _ = index.build(text);
    assert_eq!(index.backward_search("$"), Some((0, 0)));
    assert_eq!(index.count_occurrences("$"), 1);
    assert_eq!(index.count_occurrences("a$"), 1);
    assert_eq!(index.count_occurrences("$a"), 0);
}

#[test]
fn empty_pattern_matches_every_row() {
    let text = "banana";
    let mut index = FMIndex::new();
    let _ = index.build(text);
    assert_eq!(index.backward_search(""), Some((0, 6)));
    assert_eq!(index.count_occurrences(""), 7);
}
