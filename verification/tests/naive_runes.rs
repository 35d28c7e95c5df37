use runecount::rune_occurrences::Challenge;
use runecount::rune_occurrences::ChallengeParseError;

#[test]
fn quest_2_part_1_successful_parsing() {
    let input = "WORDS:THE,OWE,MES,ROD,HER

AWAKEN THE POWER ADORNED WITH THE FLAMES BRIGHT IRE";
    let Challenge { words, text } = input.parse().unwrap();
    assert_eq!(words, vec!["THE", "OWE", "MES", "ROD", "HER"]);
    assert_eq!(text, "AWAKEN THE POWER ADORNED WITH THE FLAMES BRIGHT IRE");
}

#[test]
fn quest_2_part_1_example() {
    let input = "WORDS:THE,OWE,MES,ROD,HER

AWAKEN THE POWER ADORNED WITH THE FLAMES BRIGHT IRE";
    let challenge: Challenge = input.parse().unwrap();
    let num_runes = challenge.count_runes();
    assert_eq!(num_runes, 4);
}

#[test]
fn empty_input_has_no_word_line() {
    let r = "".parse::<Challenge>();
    assert!(matches!(r, Err(ChallengeParseError::MissingWordLine)));
}

#[test]
fn missing_prefix_is_reported() {
    let r = "XORDS:THE\n\nTEXT".parse::<Challenge>();
    assert!(matches!(r, Err(ChallengeParseError::MissingPrefixInWords)));
}

#[test]
fn one_line_is_missing_the_middle_line() {
    let r = "WORDS:THE".parse::<Challenge>();
    assert!(matches!(r, Err(ChallengeParseError::MissingMiddleLine)));
}

#[test]
fn nonblank_middle_line_is_reported() {
    let r = "WORDS:THE\nOOPS\nTEXT".parse::<Challenge>();
    assert!(matches!(r, Err(ChallengeParseError::MiddleLineNotBlank)));
}

#[test]
fn two_lines_are_missing_the_text_line() {
    let r = "WORDS:THE\n\n".parse::<Challenge>();
    assert!(matches!(r, Err(ChallengeParseError::MissingTextLine)));
}

#[test]
fn invalid_alternation_is_reported_not_counted() {
    let challenge: Challenge = "WORDS:(\n\nTEXT".parse().unwrap();
    assert_eq!(challenge.count_runes_checked(), None);
}

#[test]
fn valid_alternation_is_counted_by_the_checked_variant() {
    let input = "WORDS:THE,OWE,MES,ROD,HER

AWAKEN THE POWER ADORNED WITH THE FLAMES BRIGHT IRE";
    let challenge: Challenge = input.parse().unwrap();
    assert_eq!(challenge.count_runes_checked(), Some(4));
}

#[test]
fn lone_trailing_carriage_return_is_not_blank() {
    // a carriage return not followed by a newline stays in its line
    let r = "WORDS:A\n\r".parse::<Challenge>();
    assert!(matches!(r, Err(ChallengeParseError::MiddleLineNotBlank)));
}

#[test]
fn unterminated_text_line_keeps_its_carriage_return() {
    let Challenge { words, text } = "WORDS:A\n\nTEXT\r".parse().unwrap();
    assert_eq!(words, vec!["A"]);
    assert_eq!(text, "TEXT\r");
}

#[test]
fn carriage_returns_are_stripped_from_lines() {
    let input = "WORDS:AB,CD\r\n\r\nXABX\r\n";
    let Challenge { words, text } = input.parse().unwrap();
    assert_eq!(words, vec!["AB", "CD"]);
    assert_eq!(text, "XABX");
}
