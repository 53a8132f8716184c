use mastermind::prompt::{clean_up_clues, prompt_content};
use mastermind::words_from_content;

#[test]
fn prompt_content_lists_both_word_groups() {
    let link = vec!["link1".to_string(), "link2".to_string()];
    let avoid = vec!["avoid1".to_string(), "avoid2".to_string()];
    assert_eq!(
        prompt_content(&link, &avoid),
        "To Link:\nlink1\nlink2\n\nTo Avoid:\navoid1\navoid2"
    );
}

#[test]
fn words_from_content_trims_and_drops_empty_lines() {
    let words = words_from_content("  alpha \n\n beta\r\ngamma\n");
    assert_eq!(
        words,
        vec!["alpha".to_string(), "beta".to_string(), "gamma".to_string()]
    );
}

#[test]
fn words_from_content_of_blank_text_is_empty() {
    assert!(words_from_content("").is_empty());
    assert!(words_from_content("   \n \n").is_empty());
}

#[test]
fn clean_up_keeps_only_consistent_lines() {
    let mut clues = vec![
        "gear 2 - scuba diver".to_string(),
        "too short".to_string(),
        "alpha 3 - one two three".to_string(),
        "word x - a b".to_string(),
        "gear 2 - scuba diver extra".to_string(),
    ];
    clean_up_clues(&mut clues);
    assert_eq!(
        clues,
        vec![
            "alpha 3 - one two three".to_string(),
            "gear 2 - scuba diver".to_string(),
        ]
    );
}

#[test]
fn clean_up_orders_by_count_token_as_text() {
    // The count tokens are compared as text, so "9" outranks "10".
    let mut clues = vec![
        "ten 10 - a b c d e f g h i j".to_string(),
        "nine 9 - a b c d e f g h i".to_string(),
    ];
    clean_up_clues(&mut clues);
    assert_eq!(
        clues,
        vec![
            "nine 9 - a b c d e f g h i".to_string(),
            "ten 10 - a b c d e f g h i j".to_string(),
        ]
    );
}

#[test]
fn clean_up_is_stable_for_equal_tokens() {
    let mut clues = vec![
        "first 2 - a b".to_string(),
        "second 3 - a b c".to_string(),
        "third 2 - c d".to_string(),
    ];
    clean_up_clues(&mut clues);
    assert_eq!(
        clues,
        vec![
            "second 3 - a b c".to_string(),
            "first 2 - a b".to_string(),
            "third 2 - c d".to_string(),
        ]
    );
}
