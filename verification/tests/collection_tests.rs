use mastermind::clue_collection::ClueCollection;
use mastermind::responses::{accumulate, ChatCompletionResponse, Choice, Message, Usage};

fn response(model: &str, content: &str, usage: (usize, usize, usize)) -> ChatCompletionResponse {
    ChatCompletionResponse {
        choices: vec![Choice {
            message: Message {
                content: content.to_string(),
            },
        }],
        model: model.to_string(),
        usage: Usage {
            prompt_tokens: usage.0,
            completion_tokens: usage.1,
            total_tokens: usage.2,
        },
    }
}

#[test]
fn builder_sorts_by_count_descending() {
    let first = response(
        "model_a",
        "alpha, 3, one, two, three\nbeta, 2, four, five",
        (1, 1, 2),
    );
    let second = response("model_b", "gamma, 4, a, b, c, d", (1, 1, 2));
    let collection = ClueCollection::new(vec![first, second]);
    assert_eq!(
        collection.generate_list(),
        "gamma 4 - a, b, c, d\nalpha 3 - one, two, three\nbeta 2 - four, five\n"
    );
}

#[test]
fn builder_keeps_input_order_for_equal_counts() {
    let first = response("model_a", "alpha, 2, one, two\nbeta, 2, three, four", (0, 0, 0));
    let second = response("model_b", "gamma, 2, five, six", (0, 0, 0));
    let collection = ClueCollection::new(vec![first, second]);
    assert_eq!(
        collection.generate_list(),
        "alpha 2 - one, two\nbeta 2 - three, four\ngamma 2 - five, six\n"
    );
}

#[test]
fn builder_drops_malformed_lines_silently() {
    let resp = response(
        "model_a",
        "not a clue at all\ngear, 2, scuba diver, hospital\n1234\n",
        (5, 7, 12),
    );
    let collection = ClueCollection::new(vec![resp]);
    assert!(!collection.is_empty());
    assert_eq!(collection.generate_list(), "gear 2 - scuba diver, hospital\n");
}

#[test]
fn builder_trims_lines_before_parsing() {
    let resp = response("m", "   gear, 2, scuba diver, hospital   \r\n", (0, 0, 0));
    let collection = ClueCollection::new(vec![resp]);
    assert_eq!(collection.generate_list(), "gear 2 - scuba diver, hospital\n");
}

#[test]
fn empty_input_gives_empty_collection() {
    let collection = ClueCollection::new(vec![]);
    assert!(collection.is_empty());
    assert_eq!(collection.generate_list(), "");
}

#[test]
fn unparseable_responses_keep_their_token_usage() {
    let first = response("model_a", "nothing useful here", (10, 5, 15));
    let second = response("model_b", "still: no! clues?", (20, 8, 28));
    let collection = ClueCollection::new(vec![first, second]);
    assert!(collection.is_empty());
    assert_eq!(
        collection.usage_summary(),
        "\nToken Usage:\n----------------------\nPrompt Tokens: 30\nCompletion Tokens: 13\n----------------------\nTotal Tokens: 43"
    );
}

#[test]
fn usage_is_summed_field_by_field() {
    let first = response("model_a", "gear, 2, scuba diver, hospital", (10, 5, 15));
    let second = response("model_b", "tide, 2, beach, moon", (20, 8, 28));
    let collection = ClueCollection::new(vec![first, second]);
    assert_eq!(
        collection.usage_summary(),
        "\nToken Usage:\n----------------------\nPrompt Tokens: 30\nCompletion Tokens: 13\n----------------------\nTotal Tokens: 43"
    );
}

#[test]
fn accumulate_adds_each_field() {
    let total = accumulate(
        Usage {
            prompt_tokens: 10,
            completion_tokens: 5,
            total_tokens: 15,
        },
        Usage {
            prompt_tokens: 20,
            completion_tokens: 8,
            total_tokens: 28,
        },
    );
    assert_eq!(total.prompt_tokens, 30);
    assert_eq!(total.completion_tokens, 13);
    assert_eq!(total.total_tokens, 43);
}

#[test]
fn table_rows_follow_the_sorted_clues() {
    let resp = response(
        "model_a",
        "gear, 2, scuba diver, hospital\nstar, 3, sky, fish, sign",
        (0, 0, 0),
    );
    let collection = ClueCollection::new(vec![resp]);
    let rows = collection.table_rows();
    assert_eq!(
        rows,
        vec![
            vec![
                "star".to_string(),
                "3".to_string(),
                "sky, fish, sign".to_string(),
                "model_a".to_string(),
            ],
            vec![
                "gear".to_string(),
                "2".to_string(),
                "scuba diver, hospital".to_string(),
                "model_a".to_string(),
            ],
        ]
    );
}

#[test]
fn generate_table_draws_every_column() {
    let resp = response("model_a", "gear, 2, scuba diver, hospital", (0, 0, 0));
    let collection = ClueCollection::new(vec![resp]);
    let table = collection.generate_table();
    assert!(table.contains("Clue"));
    assert!(table.contains("Count"));
    assert!(table.contains("Linked Words"));
    assert!(table.contains("Source"));
    assert!(table.contains("gear"));
    assert!(table.contains("scuba diver, hospital"));
    assert!(table.contains("model_a"));
}

#[test]
fn multi_digit_counts_render_in_full() {
    let resp = response(
        "m",
        "zodiac, 12, a, b, c, d, e, f, g, h, i, j, k, l",
        (0, 0, 0),
    );
    let collection = ClueCollection::new(vec![resp]);
    assert_eq!(
        collection.generate_list(),
        "zodiac 12 - a, b, c, d, e, f, g, h, i, j, k, l\n"
    );
}
