use enigma::score::ioc_of_letters;
use enigma::search::ioc;

#[test]
fn uniform_alphabet_scores_zero() {
    assert_eq!(ioc("ABCDEFGHIJKLMNOPQRSTUVWXYZ"), Some(0));
}

#[test]
fn uniform_twice_scores_exactly() {
    // Each letter twice: 26 * 2 = 52 coincidences over 52 * 51 / 26 = 102.
    let text = "ABCDEFGHIJKLMNOPQRSTUVWXYZABCDEFGHIJKLMNOPQRSTUVWXYZ";
    assert_eq!(ioc(text), Some(510));
}

#[test]
fn repeated_letter_scores_maximum() {
    assert_eq!(ioc("AA"), Some(26000));
    assert_eq!(ioc("QQQQQQQQQQ"), Some(26000));
}

#[test]
fn rounding_of_score() {
    // Counts 2 and 2: 4 coincidences, 4 * 3 = 12 pairs: 26000 * 4 / 12 = 8666.67.
    assert_eq!(ioc("AABB"), Some(8667));
    // 2 coincidences of 3 * 2 = 6 pairs: 8666.67 rounds to 8667 too.
    assert_eq!(ioc("ABA"), Some(8667));
    // No coincidences.
    assert_eq!(ioc("AB"), Some(0));
}

#[test]
fn too_short_text_has_no_score() {
    assert_eq!(ioc(""), None);
    assert_eq!(ioc("A"), None);
    assert_eq!(ioc_of_letters(&vec![3u8]), None);
}

#[test]
fn score_of_letter_numbers() {
    assert_eq!(ioc_of_letters(&vec![0u8, 0, 1, 1]), Some(8667));
}
