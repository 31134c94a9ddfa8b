use pseudo_jaro_winkler::dedup::{key_before, NameGroups};
use pseudo_jaro_winkler::linker::{pseudo_jaro_winkler, InputError, Linker};
use pseudo_jaro_winkler::order::{order_names, NameOrder};
use pseudo_jaro_winkler::output::{push_decimal, push_line, render_matches, Match};
use pseudo_jaro_winkler::scorecard::Score;

fn names(texts: &[&str]) -> Vec<String> {
    texts.iter().map(|t| t.to_string()).collect()
}

fn zero() -> Score {
    Score { numerator: 0, denominator: 1 }
}

fn text(bytes: &Vec<u8>) -> String {
    String::from_utf8(bytes.clone()).unwrap()
}

fn files(a: &[&str], b: &[&str], min: Score) -> Vec<String> {
    let written = pseudo_jaro_winkler(&names(a), &names(b), min).unwrap();
    written.iter().map(text).collect()
}

#[test]
fn equal_names_score_one() {
    assert_eq!(files(&["jake"], &["jake"], zero()), vec!["0,1.00\n"]);
}

#[test]
fn jake_against_jack() {
    assert_eq!(files(&["jake"], &["jack"], zero()), vec!["0,0.87\n"]);
}

#[test]
fn names_without_a_common_letter_score_zero() {
    assert_eq!(files(&["a"], &["b"], zero()), vec!["0,0.00\n"]);
}

#[test]
fn duplicated_query_gets_identical_files() {
    let written = files(&["jake", "jake"], &["jake", "joke"], zero());
    assert_eq!(written.len(), 2);
    assert_eq!(written[0], written[1]);
    assert_eq!(written[0], "0,1.00\n1,0.85\n");
}

#[test]
fn threshold_keeps_only_what_meets_it() {
    let min = Score { numerator: 95, denominator: 100 };
    assert_eq!(files(&["jake"], &["jake", "joke"], min), vec!["0,1.00\n"]);
}

#[test]
fn martha_against_marhta() {
    assert_eq!(files(&["martha"], &["marhta"], zero()), vec!["0,0.96\n"]);
}

#[test]
fn threshold_is_inclusive() {
    let exact = Score { numerator: 78336, denominator: 92160 };
    assert_eq!(files(&["jake"], &["joke"], exact), vec!["0,0.85\n"]);
    let above = Score { numerator: 78337, denominator: 92160 };
    assert_eq!(files(&["jake"], &["joke"], above), vec![""]);
}

#[test]
fn lines_follow_the_order_of_candidate_names() {
    let written = files(&["jake"], &["joke", "jake", "jack", "jake", "b"], zero());
    assert_eq!(written, vec!["4,0.00\n2,0.87\n1,1.00\n3,1.00\n0,0.85\n"]);
}

#[test]
fn every_candidate_is_reported_once_at_threshold_zero() {
    let a = ["anna", "bob", "anna", "zed"];
    let b = ["bob", "anna", "ann", "bob", "q", "anna", "hannah"];
    let written = files(&a, &b, zero());
    assert_eq!(written.len(), a.len());
    for file in written.iter() {
        let mut ids: Vec<usize> = file
            .lines()
            .map(|line| line.split(',').next().unwrap().parse().unwrap())
            .collect();
        assert_eq!(ids.len(), b.len());
        ids.sort();
        assert_eq!(ids, (0..b.len()).collect::<Vec<usize>>());
    }
    assert_eq!(written[0], written[2]);
}

#[test]
fn two_runs_write_the_same() {
    let a = ["mary ann", "john", "jon"];
    let b = ["john", "mary", "joan", "mary ann", "jon"];
    let min = Score { numerator: 7, denominator: 10 };
    assert_eq!(files(&a, &b, min), files(&a, &b, min));
}

#[test]
fn scores_lie_between_zero_and_one() {
    let a = ["martha", "jake", "a", "abcdefghijklmnop", "aaaa"];
    let b = ["marhta", "jack", "b", "ponmlkjihgfedcba", "aa", "aaaaaaaaaaaaaaaa"];
    let linker = Linker::new(&names(&a), &names(&b)).ok().unwrap();
    for rank in 0..linker.query_count() {
        for found in linker.matches(rank, &zero()) {
            assert!(found.score.denominator > 0);
            assert!(found.score.numerator <= found.score.denominator);
        }
    }
}

#[test]
fn empty_inputs_write_nothing() {
    assert_eq!(files(&[], &["jake"], zero()), Vec::<String>::new());
    assert_eq!(files(&["jake"], &[], zero()), vec![""]);
}

#[test]
fn first_offending_query_is_named() {
    let bad = pseudo_jaro_winkler(&names(&["jake", "", "JOKE"]), &names(&["X"]), zero());
    assert_eq!(bad, Err(InputError::Query(1)));
}

#[test]
fn first_offending_candidate_is_named() {
    let long = "abcdefghijklmnopq";
    let bad = pseudo_jaro_winkler(&names(&["jake"]), &names(&["jake", long, ""]), zero());
    assert_eq!(bad, Err(InputError::Candidate(1)));
    assert!(Linker::new(&names(&["jake"]), &names(&["j\u{e4}ke"])).is_err());
}

#[test]
fn names_are_ordered_by_their_symbols() {
    let order = |a: &str, b: &str| order_names(&a.to_string(), &b.to_string());
    assert_eq!(order("jake", "jake"), NameOrder::Same);
    assert_eq!(order("jack", "jake"), NameOrder::Before);
    assert_eq!(order("jake", "jack"), NameOrder::After);
    assert_eq!(order("ann", "anna"), NameOrder::Before);
    assert_eq!(order("anna", "ann"), NameOrder::After);
    assert_eq!(order("a b", "aab"), NameOrder::Before);
}

#[test]
fn equal_names_are_ordered_by_position() {
    let all = names(&["bob", "ann", "bob"]);
    assert!(key_before(&all, 1, 0));
    assert!(!key_before(&all, 0, 1));
    assert!(key_before(&all, 0, 2));
    assert!(!key_before(&all, 2, 0));
    assert!(!key_before(&all, 2, 2));
}

#[test]
fn groups_hold_every_position_of_a_name() {
    let groups = NameGroups::new(&names(&["bob", "ann", "bob", "al", "ann", "bob"]));
    assert_eq!(groups.names, names(&["al", "ann", "bob"]));
    assert_eq!(groups.members, vec![vec![3], vec![1, 4], vec![0, 2, 5]]);
    let none = NameGroups::new(&names(&[]));
    assert!(none.names.is_empty());
    assert!(none.members.is_empty());
}

#[test]
fn groups_of_many_names_are_sorted() {
    let mut all: Vec<String> = Vec::new();
    let mut seed: u32 = 12345;
    for _ in 0..500 {
        seed = seed.wrapping_mul(1103515245).wrapping_add(12345);
        let len = 1 + (seed >> 16) % 3;
        let mut word = String::new();
        for k in 0..len {
            let letter = b'a' + ((seed >> (8 + 3 * k)) % 3) as u8;
            word.push(letter as char);
        }
        all.push(word);
    }
    let groups = NameGroups::new(&all);
    let mut expected = all.clone();
    expected.sort();
    expected.dedup();
    assert_eq!(groups.names, expected);
    let mut seen = 0;
    for (rank, ids) in groups.members.iter().enumerate() {
        assert!(!ids.is_empty());
        for pair in ids.windows(2) {
            assert!(pair[0] < pair[1]);
        }
        for id in ids.iter() {
            assert_eq!(all[*id], groups.names[rank]);
        }
        seen += ids.len();
    }
    assert_eq!(seen, all.len());
}

#[test]
fn linker_groups_queries_and_candidates() {
    let linker = Linker::new(&names(&["jon", "al", "jon"]), &names(&["joe", "al"])).ok().unwrap();
    assert_eq!(linker.query_count(), 2);
    assert_eq!(linker.query_ids(0), &vec![1]);
    assert_eq!(linker.query_ids(1), &vec![0, 2]);
    assert_eq!(linker.candidates.names, names(&["al", "joe"]));
    assert_eq!(linker.candidate_members, vec![vec![1], vec![0]]);
    let found = linker.matches(0, &zero());
    assert_eq!(found.len(), 2);
    assert_eq!(found[0].candidate, 1);
    assert_eq!(found[1].candidate, 0);
    assert_eq!(text(&linker.output(0, &zero())), "1,1.00\n0,0.00\n");
}

#[test]
fn decimal_digits_are_most_significant_first() {
    let mut out: Vec<u8> = Vec::new();
    push_decimal(&mut out, 0);
    out.push(b' ');
    push_decimal(&mut out, 7);
    out.push(b' ');
    push_decimal(&mut out, 1204);
    out.push(b' ');
    push_decimal(&mut out, u64::MAX);
    assert_eq!(text(&out), "0 7 1204 18446744073709551615");
}

#[test]
fn a_line_holds_candidate_and_score() {
    let mut out: Vec<u8> = b"x".to_vec();
    let found = Match { candidate: 31, score: Score { numerator: 2, denominator: 3 } };
    push_line(&mut out, &found);
    assert_eq!(text(&out), "x31,0.67\n");
    let more = Match { candidate: 0, score: Score { numerator: 5, denominator: 2 } };
    assert_eq!(text(&render_matches(&vec![found, more])), "31,0.67\n0,2.50\n");
    assert_eq!(text(&render_matches(&vec![])), "");
}
