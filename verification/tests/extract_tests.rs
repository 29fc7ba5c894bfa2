use wordle_ledger::extract::extract_wordle_score;

#[test]
fn extracts_id_and_score() {
    assert_eq!(extract_wordle_score("Wordle 1,234 3/6"), Some((1234, 3)));
}

#[test]
fn no_digits_no_result() {
    assert_eq!(extract_wordle_score("no numbers here"), None);
}

#[test]
fn bare_fraction_reuses_digits_as_id() {
    // A message whose only digits are the fraction: the score digits double
    // as the puzzle id.
    assert_eq!(extract_wordle_score("3/6"), Some((3, 3)));
}

#[test]
fn plain_id_without_comma() {
    assert_eq!(extract_wordle_score("Wordle 999 4/6"), Some((999, 4)));
}

#[test]
fn comma_joins_id_digits() {
    assert_eq!(extract_wordle_score("Wordle 2,5 3/6"), Some((25, 3)));
}

#[test]
fn id_only_is_not_a_result() {
    assert_eq!(extract_wordle_score("1,234"), None);
}

#[test]
fn slash_without_following_digit_is_no_fraction() {
    assert_eq!(extract_wordle_score("scored 3/ today"), None);
}

#[test]
fn score_overflow_fails() {
    assert_eq!(extract_wordle_score("99999999999/6"), None);
}

#[test]
fn id_overflow_fails() {
    assert_eq!(extract_wordle_score("Wordle 9999999999 3/6"), None);
}

#[test]
fn fraction_after_text_with_leading_zeroes() {
    assert_eq!(extract_wordle_score("Wordle 007 05/6"), Some((7, 5)));
}

#[test]
fn first_fraction_wins() {
    // The id comes from the first digit group of the whole text, the score
    // from the first fraction.
    assert_eq!(extract_wordle_score("day 12: 4/6 then 5/6"), Some((12, 4)));
}

#[test]
fn score_at_type_boundary() {
    assert_eq!(
        extract_wordle_score("2147483647/6"),
        Some((2147483647, 2147483647))
    );
    assert_eq!(extract_wordle_score("2147483648/6"), None);
}

#[test]
fn non_ascii_text_around_the_result() {
    assert_eq!(
        extract_wordle_score("héllo — Wordle 1,234 3/6"),
        Some((1234, 3))
    );
}
