use mastermind::clue::Clue;

#[test]
fn clue_test_new() {
    let ref_clue = Clue {
        clue_word: "gear".to_string(),
        count: 2,
        linked_words: vec!["scuba diver".to_string(), "hospital".to_string()],
        source: String::from("some_source"),
    };

    let clue = Clue::new(
        "   gear   , 2    ,   scuba diver  , hospital   ",
        String::from("some_source"),
    )
    .unwrap();

    assert_eq!(clue.clue_word, ref_clue.clue_word);
    assert_eq!(clue.count, ref_clue.count);
    assert_eq!(clue.linked_words, ref_clue.linked_words);
    assert_eq!(clue.source, ref_clue.source);

    let clue = Clue::new(
        "   gear   , 3    ,   scuba diver  , hospital   ",
        String::from("some_source"),
    );
    assert!(clue.is_none());

    let clue = Clue::new(
        "   gear   , a    ,   scuba diver  , hospital   ",
        String::from("some_source"),
    );
    assert!(clue.is_none());

    let clue = Clue::new(
        "   ge#ar   , 2    ,   scuba diver  , hospital   ",
        String::from("some_source"),
    );
    assert!(clue.is_none());

    let clue = Clue::new(
        "   gear   , 2    ,   scuba di/ver  , hospital   ",
        String::from("some_source"),
    );
    assert!(clue.is_none());
}

#[test]
fn parse_accepts_padded_chunks() {
    let clue = Clue::new(
        "  gear   , 2    ,   scuba diver  , hospital   ",
        String::new(),
    )
    .unwrap();
    assert_eq!(clue.clue_word, "gear");
    assert_eq!(clue.count, 2);
    assert_eq!(
        clue.linked_words,
        vec!["scuba diver".to_string(), "hospital".to_string()]
    );
    assert_eq!(clue.source, "");
}

#[test]
fn parse_rejects_count_mismatch() {
    assert!(Clue::new("gear, 3, scuba diver, hospital", String::new()).is_none());
}

#[test]
fn parse_rejects_special_character_in_clue_word() {
    assert!(Clue::new("ge#ar, 2, scuba diver, hospital", String::new()).is_none());
}

#[test]
fn parse_rejects_special_character_in_linked_word() {
    assert!(Clue::new("gear, 2, scuba di/ver, hospital", String::new()).is_none());
}

#[test]
fn parse_rejects_digit_in_clue_word() {
    assert!(Clue::new("gear1, 2, scuba diver, hospital", String::new()).is_none());
}

#[test]
fn parse_rejects_too_few_chunks() {
    assert!(Clue::new("", String::new()).is_none());
    assert!(Clue::new(", ", String::new()).is_none());
    assert!(Clue::new("gear, 2", String::new()).is_none());
    assert!(Clue::new("gear, 2, hospital", String::new()).is_none());
}

#[test]
fn parse_rejects_non_numeric_count() {
    assert!(Clue::new("gear, a, scuba diver, hospital", String::new()).is_none());
    assert!(Clue::new("gear, -2, scuba diver, hospital", String::new()).is_none());
    assert!(Clue::new("gear, 2x, scuba diver, hospital", String::new()).is_none());
}

#[test]
fn parse_accepts_plus_signed_count() {
    let clue = Clue::new("gear, +2, scuba diver, hospital", String::new()).unwrap();
    assert_eq!(clue.count, 2);
}

#[test]
fn to_line_writes_the_parsed_shape() {
    let clue = Clue::new("gear, 2, scuba diver, hospital", String::new()).unwrap();
    assert_eq!(clue.to_line(), "gear, 2, scuba diver, hospital");
}

#[test]
fn line_round_trip_preserves_the_clue() {
    let clue = Clue::new(
        "polar bear, 3, ice, zoo, honey pot",
        String::from("model_a"),
    )
    .unwrap();
    let line = clue.to_line();
    assert_eq!(line, "polar bear, 3, ice, zoo, honey pot");
    let back = Clue::new(&line, String::from("model_b")).unwrap();
    assert_eq!(back.clue_word, clue.clue_word);
    assert_eq!(back.count, clue.count);
    assert_eq!(back.linked_words, clue.linked_words);
    assert_eq!(back.source, "model_b");
}

#[test]
fn parse_trims_unicode_whitespace() {
    let clue = Clue::new(
        "\u{a0}gear\u{a0}, 2, scuba diver, hospital",
        String::new(),
    )
    .unwrap();
    assert_eq!(clue.clue_word, "gear");
}

#[test]
fn parse_rejects_unicode_whitespace_inside_a_word() {
    // A non-breaking space is neither alphabetic nor a plain space.
    assert!(Clue::new("ge\u{a0}ar, 2, scuba diver, hospital", String::new()).is_none());
}

#[test]
fn parse_rejects_empty_clue_word() {
    assert!(Clue::new(", 2, scuba diver, hospital", String::new()).is_none());
    assert!(Clue::new("   , 2, scuba diver, hospital", String::new()).is_none());
}

#[test]
fn parse_rejects_empty_linked_words() {
    assert!(Clue::new("gear, 2, , hospital", String::new()).is_none());
    assert!(Clue::new("gear, 2, scuba diver,   ", String::new()).is_none());
    assert!(Clue::new(", 2, , ", String::new()).is_none());
}
