use runecount::matcher::Automaton;
use runecount::matcher::pattern_set;

fn chars(s: &str) -> Vec<char> {
    s.chars().collect()
}

#[test]
fn repeated_pattern() {
    let words = vec![chars("I"), chars("I")];
    let matcher = Automaton::build(&words);
    let matches = matcher.find_matches("I am Legend");
    assert_eq!(matches.len(), 2);
}

#[test]
fn a_repeated_pattern_covers_its_position_once() {
    let words = vec![chars("I"), chars("I")];
    let matcher = Automaton::build(&words);
    assert_eq!(matcher.count("I am Legend"), 1);
}

#[test]
fn pattern_set_interleaves_reversal_and_word() {
    let words = vec!["THE".to_string(), "OWE".to_string()];
    let pats = pattern_set(&words);
    assert_eq!(pats.len(), 4);
    assert_eq!(pats[0], chars("EHT"));
    assert_eq!(pats[1], chars("THE"));
    assert_eq!(pats[2], chars("EWO"));
    assert_eq!(pats[3], chars("OWE"));
}

#[test]
fn scanning_twice_yields_the_same_positions() {
    let pats = vec![chars("HE"), chars("THE"), chars("EHT")];
    let automaton = Automaton::build(&pats);
    let text = "THE THEME OF THE DAY";
    let first = automaton.scan(text);
    let second = automaton.scan(text);
    assert_eq!(first, second);
}

#[test]
fn suffix_patterns_ending_together_are_all_found() {
    // "HE" ends wherever "THE" ends; the positions of both spans count
    let pats = vec![chars("HE"), chars("THE")];
    let automaton = Automaton::build(&pats);
    let matches = automaton.find_matches("XTHEX");
    assert_eq!(matches.len(), 2);
    assert!(matches.contains(&(0, 2, 3)));
    assert!(matches.contains(&(1, 1, 3)));
    assert_eq!(automaton.count("XTHEX"), 3);
}

#[test]
fn overlapping_occurrences_merge_their_spans() {
    let pats = vec![chars("ABA")];
    let automaton = Automaton::build(&pats);
    // occurrences at 0..=2 and 2..=4 overlap at position 2
    assert_eq!(automaton.count("ABABA"), 5);
    let positions = automaton.scan("ABABAXX");
    assert_eq!(positions, vec![0, 1, 2, 3, 4]);
}

#[test]
fn empty_text_is_covered_nowhere() {
    let pats = vec![chars("A")];
    let automaton = Automaton::build(&pats);
    assert_eq!(automaton.count(""), 0);
}

#[test]
fn empty_pattern_set_covers_nothing() {
    let pats: Vec<Vec<char>> = vec![];
    let automaton = Automaton::build(&pats);
    assert_eq!(automaton.count("ANY TEXT AT ALL"), 0);
    assert_eq!(automaton.find_matches("ANY TEXT AT ALL").len(), 0);
}
