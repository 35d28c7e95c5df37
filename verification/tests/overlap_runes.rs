use runecount::runic_symbols::Challenge;
use runecount::runic_symbols::ChallengeParseError;

#[test]
fn quest_2_part_2_successful_parsing() {
    let input = "WORDS:THE,OWE,MES,ROD,HER,QAQ

AWAKEN THE POWE ADORNED WITH THE FLAMES BRIGHT IRE
THE FLAME SHIELDED THE HEART OF THE KINGS
POWE PO WER P OWE R
THERE IS THE END
QAQAQ";
    let Challenge { words, text } = input.parse().unwrap();
    assert_eq!(words, vec!["THE", "OWE", "MES", "ROD", "HER", "QAQ"]);
    assert_eq!(
        text,
        "AWAKEN THE POWE ADORNED WITH THE FLAMES BRIGHT IRE
THE FLAME SHIELDED THE HEART OF THE KINGS
POWE PO WER P OWE R
THERE IS THE END
QAQAQ"
    );
}

#[test]
fn quest_2_part_2_example() {
    let input = "WORDS:THE,OWE,MES,ROD,HER,QAQ

AWAKEN THE POWE ADORNED WITH THE FLAMES BRIGHT IRE
THE FLAME SHIELDED THE HEART OF THE KINGS
POWE PO WER P OWE R
THERE IS THE END
QAQAQ";
    let challenge: Challenge = input.parse().unwrap();
    let num_runes = challenge.count_runic_symbols();
    assert_eq!(num_runes, 42);
}

#[test]
fn missing_newline_is_a_missing_middle_line() {
    let r = "WORDS:THE".parse::<Challenge>();
    assert!(matches!(r, Err(ChallengeParseError::MissingMiddleLine)));
}

#[test]
fn missing_prefix_is_reported_first() {
    let r = "XORDS:THE\n\nTEXT".parse::<Challenge>();
    assert!(matches!(r, Err(ChallengeParseError::MissingPrefixInWords)));
}

#[test]
fn nonblank_second_part_is_reported() {
    let r = "WORDS:THE\nOOPS".parse::<Challenge>();
    assert!(matches!(r, Err(ChallengeParseError::MiddleLineNotBlank)));
}

#[test]
fn newline_at_the_end_alone_misses_the_text() {
    let r = "WORDS:THE\n".parse::<Challenge>();
    assert!(matches!(r, Err(ChallengeParseError::MissingTextLine)));
}

#[test]
fn two_newlines_make_an_empty_text() {
    let Challenge { words, text } = "WORDS:THE\n\n".parse().unwrap();
    assert_eq!(words, vec!["THE"]);
    assert_eq!(text, "");
    let challenge = Challenge { words, text };
    assert_eq!(challenge.count_runic_symbols(), 0);
}

#[test]
fn empty_word_list_covers_nothing() {
    let challenge = Challenge { words: vec![], text: "AWAKEN THE POWER".to_string() };
    assert_eq!(challenge.count_runic_symbols(), 0);
}

#[test]
fn reversing_every_word_leaves_the_count_unchanged() {
    let text = "AWAKEN THE POWER ADORNED WITH THE FLAMES BRIGHT IRE";
    let forward = Challenge {
        words: vec!["THE".to_string(), "OWE".to_string(), "HER".to_string()],
        text: text.to_string(),
    };
    let reversed = Challenge {
        words: vec!["EHT".to_string(), "EWO".to_string(), "REH".to_string()],
        text: text.to_string(),
    };
    assert_eq!(forward.count_runic_symbols(), reversed.count_runic_symbols());
}

#[test]
fn a_palindromic_word_still_counts_once_per_position() {
    let challenge = Challenge { words: vec!["QAQ".to_string()], text: "QAQAQ".to_string() };
    // occurrences at 0..=2 and 2..=4, twice over for the reversal
    assert_eq!(challenge.count_runic_symbols(), 5);
}
