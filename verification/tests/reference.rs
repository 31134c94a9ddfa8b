use pseudo_jaro_winkler::linker::Linker;
use pseudo_jaro_winkler::scorecard::Score;

fn names(texts: &[&str]) -> Vec<String> {
    texts.iter().map(|t| t.to_string()).collect()
}

fn scored(query: &str, candidate: &str) -> f64 {
    let linker = Linker::new(&names(&[query]), &names(&[candidate])).ok().unwrap();
    let found = linker.matches(0, &Score { numerator: 0, denominator: 1 });
    assert_eq!(found.len(), 1);
    found[0].score.numerator as f64 / found[0].score.denominator as f64
}

#[test]
fn close_to_exact_jaro_winkler_on_similar_names() {
    let pairs = [
        ("jake", "jake"),
        ("jake", "jack"),
        ("jake", "joke"),
        ("martha", "marhta"),
        ("dwayne", "duane"),
        ("jones", "johnson"),
        ("william", "williams"),
        ("mary ann", "maryann"),
        ("elizabeth", "elisabeth"),
        ("catherine", "katherine"),
    ];
    for (query, candidate) in pairs.iter() {
        let exact = strsim::jaro_winkler(query, candidate);
        let approximate = scored(query, candidate);
        assert!(
            (exact - approximate).abs() <= 0.02,
            "{} against {}: {} for {}",
            query,
            candidate,
            approximate,
            exact
        );
    }
}

#[test]
fn martha_is_within_two_hundredths_of_the_reference() {
    assert!((scored("martha", "marhta") - 0.9611).abs() <= 0.02);
    assert!((scored("jake", "jack") - 0.8667).abs() <= 0.02);
}

#[test]
fn score_uses_the_reciprocal_of_the_query_length() {
    let value = scored("jake", "jack");
    let expected = 79872.0 / 92160.0;
    assert!((value - expected).abs() < 1e-12);
    let value = scored("abc", "ab");
    let jaro = (2.0 * (341.0 + 512.0) / 1024.0 + 1.0) / 3.0;
    let expected = jaro + 0.1 * 2.0 * (1.0 - jaro);
    assert!((value - expected).abs() < 1e-9);
}
