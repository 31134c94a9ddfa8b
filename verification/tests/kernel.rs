use pseudo_jaro_winkler::alphabet::{holds_symbol, is_valid_name, symbol_index};
use pseudo_jaro_winkler::index::{build_candidate_lookup, letter_mask, CandidateLetterInfo};
use pseudo_jaro_winkler::kernel::{first_invalid, CandidateIndex};
use pseudo_jaro_winkler::mask::{dilate, maskify, match_distance};
use pseudo_jaro_winkler::scorecard::{score_letter, CandidateScore, Score};

fn name(text: &str) -> String {
    text.to_string()
}

fn names(texts: &[&str]) -> Vec<String> {
    texts.iter().map(|t| t.to_string()).collect()
}

#[test]
fn symbol_index_folds_space_below_a() {
    assert_eq!(symbol_index(b' '), 0);
    assert_eq!(symbol_index(b'a'), 1);
    assert_eq!(symbol_index(b'j'), 10);
    assert_eq!(symbol_index(b'z'), 26);
}

#[test]
fn holds_symbol_rejects_bytes_outside_the_alphabet() {
    assert!(holds_symbol(b'a', 1));
    assert!(holds_symbol(b' ', 0));
    assert!(!holds_symbol(b'a', 2));
    assert!(!holds_symbol(b'`', 0));
    assert!(!holds_symbol(b'A', 1));
    assert!(!holds_symbol(b'{', 27));
}

#[test]
fn valid_names_have_one_to_sixteen_symbols() {
    assert!(is_valid_name(&name("a")));
    assert!(is_valid_name(&name("mary ann")));
    assert!(is_valid_name(&name("abcdefghijklmnop")));
    assert!(!is_valid_name(&name("")));
    assert!(!is_valid_name(&name("abcdefghijklmnopq")));
    assert!(!is_valid_name(&name("Jake")));
    assert!(!is_valid_name(&name("jake1")));
    assert!(!is_valid_name(&name("jos\u{e9}")));
    assert!(!is_valid_name(&name("a`b")));
}

#[test]
fn first_invalid_gives_the_first_offending_position() {
    assert_eq!(first_invalid(&names(&["jake", "joke"])), None);
    assert_eq!(first_invalid(&names(&["jake", "", "JOKE"])), Some(1));
    assert_eq!(first_invalid(&names(&[])), None);
}

#[test]
fn match_distance_is_half_the_length_less_one() {
    assert_eq!(match_distance(0), 0);
    assert_eq!(match_distance(1), 0);
    assert_eq!(match_distance(3), 0);
    assert_eq!(match_distance(4), 1);
    assert_eq!(match_distance(5), 1);
    assert_eq!(match_distance(6), 2);
    assert_eq!(match_distance(16), 7);
}

#[test]
fn dilate_widens_and_clips() {
    assert_eq!(dilate(0, 0), 0b1);
    assert_eq!(dilate(3, 0), 0b1000);
    assert_eq!(dilate(0, 1), 0b11);
    assert_eq!(dilate(3, 1), 0b11100);
    assert_eq!(dilate(15, 7), 0xff00);
    assert_eq!(dilate(8, 16), 0xffff);
    assert_eq!(dilate(5, 2), 0b1111_1000);
}

#[test]
fn maskify_builds_one_entry_for_each_character() {
    let table = maskify(&name("jake")).unwrap();
    assert_eq!(table.len(), 4);
    let symbols: Vec<u8> = table.iter().map(|entry| entry.0).collect();
    assert_eq!(symbols, vec![10, 1, 11, 5]);
    assert_eq!(
        table[0].1,
        [3, 3, 3, 3, 3, 7, 7, 15, 15, 31, 31, 63, 63, 127, 127, 255]
    );
    assert_eq!(table[3].1[0], 0b11100);
    assert_eq!(table[3].1[5], 0b111110);
    assert_eq!(table[3].1[15], 0b111_1111_1111);
}

#[test]
fn maskify_uses_the_larger_window() {
    let table = maskify(&name("abcdefghijklmnop")).unwrap();
    assert_eq!(table.len(), 16);
    for k in 0..16 {
        assert_eq!(table[8].1[k], 0b1111_1111_1111_1110);
        assert_eq!(table[15].1[k], 0xff00);
    }
    let short = maskify(&name("ab")).unwrap();
    assert_eq!(short[1].1[0], 0b10);
    assert_eq!(short[1].1[3], 0b111);
}

#[test]
fn maskify_rejects_what_cannot_be_scored() {
    assert!(maskify(&name("")).is_none());
    assert!(maskify(&name("abcdefghijklmnopq")).is_none());
    assert!(maskify(&name("Jake")).is_none());
    assert!(maskify(&name(" ")).is_some());
}

#[test]
fn letter_mask_marks_every_occurrence() {
    assert_eq!(letter_mask(&name("anna"), 1), 0b1001);
    assert_eq!(letter_mask(&name("anna"), 14), 0b0110);
    assert_eq!(letter_mask(&name("anna"), 2), 0);
    assert_eq!(letter_mask(&name("a b"), 0), 0b010);
    assert_eq!(letter_mask(&name("aaaaaaaaaaaaaaaa"), 1), 0xffff);
    assert_eq!(letter_mask(&name("abcdefghijklmnop"), 16), 0x8000);
}

#[test]
fn lookup_lists_the_candidates_that_hold_a_symbol() {
    let lookup = build_candidate_lookup(&names(&["jake", "joke", "", "anna"]));
    assert_eq!(lookup.len(), 27);
    assert_eq!(
        lookup[10],
        vec![
            CandidateLetterInfo { name_index: 0, len: 4, mask: 1 },
            CandidateLetterInfo { name_index: 1, len: 4, mask: 1 },
        ]
    );
    assert_eq!(
        lookup[1],
        vec![
            CandidateLetterInfo { name_index: 0, len: 4, mask: 0b10 },
            CandidateLetterInfo { name_index: 3, len: 4, mask: 0b1001 },
        ]
    );
    assert_eq!(lookup[15], vec![CandidateLetterInfo { name_index: 1, len: 4, mask: 0b10 }]);
    assert!(lookup[0].is_empty());
    assert!(lookup[26].is_empty());
    for entries in lookup.iter() {
        for entry in entries.iter() {
            assert_ne!(entry.mask, 0);
            assert!(1 <= entry.len && entry.len <= 16);
        }
    }
}

#[test]
fn new_scorecard_is_zeroed() {
    let card = CandidateScore::new(3);
    assert_eq!(
        card,
        CandidateScore {
            matches: 0,
            used: 0,
            used_exact: 0,
            len_partial: 341,
            last_match_letter_index: 0,
            transposition_count: 0,
            len: 3,
        }
    );
    assert_eq!(CandidateScore::new(1).len_partial, 1024);
    assert_eq!(CandidateScore::new(6).len_partial, 170);
    assert_eq!(CandidateScore::new(16).len_partial, 64);
}

#[test]
fn score_letter_takes_the_lowest_free_position() {
    let mut card = CandidateScore::new(4);
    score_letter(&mut card, 0b0011, 0b1011, 0);
    assert_eq!((card.matches, card.used, card.used_exact), (1, 0b0001, 0b0001));
    score_letter(&mut card, 0b0111, 0b1011, 1);
    assert_eq!((card.matches, card.used, card.used_exact), (2, 0b0011, 0b0011));
    score_letter(&mut card, 0b1110, 0b1011, 3);
    assert_eq!((card.matches, card.used, card.used_exact), (3, 0b1011, 0b1011));
    assert_eq!(card.transposition_count, 0);
    assert_eq!(card.last_match_letter_index, 0b1011);
}

#[test]
fn score_letter_without_a_free_position_changes_nothing() {
    let mut card = CandidateScore::new(4);
    score_letter(&mut card, 0b0011, 0b0001, 0);
    let before = card;
    score_letter(&mut card, 0b0011, 0b0001, 1);
    assert_eq!(card, before);
    score_letter(&mut card, 0b1100, 0b0011, 2);
    assert_eq!(card, before);
    score_letter(&mut card, 0xffff, 0, 3);
    assert_eq!(card, before);
}

#[test]
fn score_letter_counts_a_choice_below_an_earlier_one() {
    let mut card = CandidateScore::new(6);
    score_letter(&mut card, 0b111110, 0b010000, 3);
    assert_eq!((card.matches, card.transposition_count), (1, 0));
    score_letter(&mut card, 0b111100, 0b001000, 4);
    assert_eq!((card.matches, card.transposition_count), (2, 1));
    assert_eq!(card.used, 0b011000);
    assert_eq!(card.used_exact, 0);
    score_letter(&mut card, 0b111000, 0b100000, 5);
    assert_eq!((card.matches, card.transposition_count), (3, 1));
    assert_eq!(card.used_exact, 0b100000);
}

#[test]
fn popcount_of_used_stays_equal_to_matches() {
    let mut card = CandidateScore::new(16);
    for i in 0..16usize {
        score_letter(&mut card, 0xffff, 0x5555, i);
        assert_eq!(card.used.count_ones(), card.matches as u32);
        assert_eq!(card.used_exact & !card.used, 0);
        assert!(card.matches as usize <= i + 1);
    }
    assert_eq!(card.matches, 8);
    assert_eq!(card.used, 0x5555);
}

#[test]
fn score_of_an_untouched_scorecard_is_zero() {
    let score = CandidateScore::new(4).calculate_jaro_winkler(256);
    assert_eq!(score, Score { numerator: 0, denominator: 1 });
}

#[test]
fn score_is_the_exact_fraction() {
    let full = CandidateScore {
        matches: 4,
        used: 0b1111,
        used_exact: 0b1111,
        len_partial: 256,
        last_match_letter_index: 0b1111,
        transposition_count: 0,
        len: 4,
    };
    assert_eq!(
        full.calculate_jaro_winkler(256),
        Score { numerator: 122880, denominator: 122880 }
    );
    let jack = CandidateScore {
        matches: 3,
        used: 0b1011,
        used_exact: 0b0011,
        len_partial: 256,
        last_match_letter_index: 0b1011,
        transposition_count: 0,
        len: 4,
    };
    assert_eq!(
        jack.calculate_jaro_winkler(256),
        Score { numerator: 79872, denominator: 92160 }
    );
}

#[test]
fn score_drops_one_transposition_past_half_the_matches() {
    let mut card = CandidateScore {
        matches: 4,
        used: 0b1111,
        used_exact: 0,
        len_partial: 256,
        last_match_letter_index: 0b1111,
        transposition_count: 2,
        len: 4,
    };
    let two = card.calculate_jaro_winkler(256);
    assert_eq!(two, Score { numerator: 10 * (4 * 2048 + 1024 * 2), denominator: 122880 });
    card.transposition_count = 3;
    let three = card.calculate_jaro_winkler(256);
    assert_eq!(three, two);
}

#[test]
fn score_comparison_is_by_cross_multiplication() {
    let half = Score { numerator: 1, denominator: 2 };
    let third = Score { numerator: 1, denominator: 3 };
    let two_quarters = Score { numerator: 2, denominator: 4 };
    assert!(half.at_least(&third));
    assert!(!third.at_least(&half));
    assert!(half.at_least(&two_quarters));
    assert!(two_quarters.at_least(&half));
    let big = Score { numerator: u32::MAX, denominator: u32::MAX };
    assert!(big.at_least(&big));
}

#[test]
fn hundredths_round_halves_upward() {
    assert_eq!(Score { numerator: 1, denominator: 3 }.hundredths(), 33);
    assert_eq!(Score { numerator: 2, denominator: 3 }.hundredths(), 67);
    assert_eq!(Score { numerator: 1, denominator: 200 }.hundredths(), 1);
    assert_eq!(Score { numerator: 1, denominator: 201 }.hundredths(), 0);
    assert_eq!(Score { numerator: 0, denominator: 1 }.hundredths(), 0);
    assert_eq!(Score { numerator: 7, denominator: 7 }.hundredths(), 100);
    assert_eq!(Score { numerator: 79872, denominator: 92160 }.hundredths(), 87);
}

#[test]
fn index_rejects_a_candidate_that_cannot_be_scored() {
    match CandidateIndex::new(names(&["jake", "toolongtoolongtoolong", ""])) {
        Err(position) => assert_eq!(position, 1),
        Ok(_) => panic!("an index over a name of 21 characters"),
    }
    let index = CandidateIndex::new(names(&["jake", "joke"])).ok().unwrap();
    assert_eq!(index.base_scores.len(), 2);
    assert_eq!(index.lookup.len(), 27);
}

#[test]
fn score_query_scores_every_candidate() {
    let index = CandidateIndex::build(names(&["jack", "jake", "joke", "b"]));
    let cards = index.score_query(&name("jake")).unwrap();
    assert_eq!(cards.len(), 4);
    assert_eq!((cards[0].matches, cards[0].used, cards[0].used_exact), (3, 0b1011, 0b0011));
    assert_eq!((cards[1].matches, cards[1].used, cards[1].used_exact), (4, 0b1111, 0b1111));
    assert_eq!((cards[2].matches, cards[2].used, cards[2].used_exact), (3, 0b1101, 0b1101));
    assert_eq!(cards[3], CandidateScore::new(1));
    assert!(index.score_query(&name("")).is_none());
    assert!(index.score_query(&name("JAKE")).is_none());
}

#[test]
fn score_query_counts_the_transposition_of_martha() {
    let index = CandidateIndex::build(names(&["marhta"]));
    let cards = index.score_query(&name("martha")).unwrap();
    assert_eq!(cards[0].matches, 6);
    assert_eq!(cards[0].transposition_count, 1);
    assert_eq!(cards[0].used, 0b111111);
    assert_eq!(cards[0].used_exact, 0b100111);
    assert_eq!(
        cards[0].calculate_jaro_winkler(170),
        Score { numerator: 176816, denominator: 184320 }
    );
}

fn direct_scorecard(query: &str, candidate: &str) -> (u8, u16, u16, u8) {
    let q = query.as_bytes();
    let c = candidate.as_bytes();
    let window = |n: usize| if n > 3 { n / 2 - 1 } else { 0 };
    let distance = window(q.len()).max(window(c.len()));
    let (mut matches, mut used, mut exact, mut transpositions) = (0u8, 0u16, 0u16, 0u8);
    for (i, letter) in q.iter().enumerate() {
        let low = i.saturating_sub(distance);
        let high = (i + distance).min(15);
        let free = (low..=high).find(|p| *p < c.len() && c[*p] == *letter && used & (1 << *p) == 0);
        if let Some(p) = free {
            if (1u16 << p) < used {
                transpositions += 1;
            }
            used |= 1 << p;
            if p == i {
                exact |= 1 << p;
            }
            matches += 1;
        }
    }
    (matches, used, exact, transpositions)
}

fn sample_names(count: usize, mut seed: u64) -> Vec<String> {
    let mut all: Vec<String> = Vec::new();
    for _ in 0..count {
        seed = seed.wrapping_mul(6364136223846793005).wrapping_add(1442695040888963407);
        let len = 1 + ((seed >> 33) % 16) as usize;
        let mut word = String::new();
        for k in 0..len {
            seed = seed.wrapping_mul(6364136223846793005).wrapping_add(1442695040888963407);
            let pick = (seed >> 40) % 6;
            let letter = if pick == 5 && k > 0 { b' ' } else { b'a' + pick as u8 };
            word.push(letter as char);
        }
        all.push(word);
    }
    all
}

#[test]
fn scorecards_match_a_direct_evaluation_of_each_pair() {
    let candidates = sample_names(300, 7);
    let queries = sample_names(40, 99);
    let index = CandidateIndex::build(candidates.clone());
    for query in queries.iter() {
        let cards = index.score_query(query).unwrap();
        assert_eq!(cards.len(), candidates.len());
        for (card, candidate) in cards.iter().zip(candidates.iter()) {
            let (matches, used, exact, transpositions) = direct_scorecard(query, candidate);
            assert_eq!(card.matches, matches, "{:?} against {:?}", query, candidate);
            assert_eq!(card.used, used, "{:?} against {:?}", query, candidate);
            assert_eq!(card.used_exact, exact, "{:?} against {:?}", query, candidate);
            assert_eq!(card.transposition_count, transpositions);
            assert_eq!(card.last_match_letter_index, used);
            assert_eq!(card.len as usize, candidate.len());
            assert!(card.matches as usize <= query.len().min(candidate.len()));
            let score = card.calculate_jaro_winkler((1024 / query.len()) as u16);
            assert!(score.numerator <= score.denominator);
        }
    }
}
