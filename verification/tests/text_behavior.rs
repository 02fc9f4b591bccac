//! Tokenizer and numeric-argument parsing scenarios.

use botcore::message::{Handler, MessageAction};
use botcore::text::{parse_u64, tokenize};

fn toks(s: &str) -> Vec<String> {
    tokenize(s, &vec![' '], true)
}

#[test]
fn tokens_split_on_delimiters_and_drop_empties() {
    assert_eq!(toks("a b  c"), vec!["a", "b", "c"]);
    assert_eq!(toks("  a "), vec!["a"]);
    assert!(toks("   ").is_empty());
    assert!(toks("").is_empty());
}

#[test]
fn quotes_keep_a_token_together() {
    assert_eq!(toks("say \"two words\" x"), vec!["say", "two words", "x"]);
    assert_eq!(toks("\"\" x"), vec!["", "x"]);
}

#[test]
fn an_unterminated_quote_keeps_what_it_had() {
    assert_eq!(toks("a \"bc d"), vec!["a", "bc d"]);
}

#[test]
fn a_quote_inside_a_token_stays_literal() {
    assert_eq!(toks("ab\"cd"), vec!["ab\"cd"]);
}

#[test]
fn without_quote_awareness_quotes_are_plain_characters() {
    assert_eq!(
        tokenize("say \"two words\"", &vec![' '], false),
        vec!["say", "\"two", "words\""]
    );
}

#[test]
fn multiple_delimiters_all_split() {
    assert_eq!(tokenize("a,b c", &vec![' ', ','], false), vec!["a", "b", "c"]);
}

#[test]
fn decimal_arguments_parse_exactly() {
    assert_eq!(parse_u64(&"0".to_string()), Some(0));
    assert_eq!(parse_u64(&"12345".to_string()), Some(12345));
    assert_eq!(parse_u64(&"18446744073709551615".to_string()), Some(u64::MAX));
}

#[test]
fn non_numerals_and_overflow_are_rejected() {
    assert_eq!(parse_u64(&"".to_string()), None);
    assert_eq!(parse_u64(&"12a".to_string()), None);
    assert_eq!(parse_u64(&"-3".to_string()), None);
    assert_eq!(parse_u64(&"18446744073709551616".to_string()), None);
    assert_eq!(parse_u64(&"99999999999999999999".to_string()), None);
}

#[test]
fn plain_message_actions_match_the_exact_texts() {
    let h = Handler;
    assert_eq!(h.plan(&"!ping".to_string()), MessageAction::Pong);
    assert_eq!(h.plan(&"!messageme".to_string()), MessageAction::DirectGreeting);
    assert_eq!(h.plan(&"!builder".to_string()), MessageAction::ChannelReport);
    assert_eq!(h.plan(&"!pingx".to_string()), MessageAction::Silent);
    assert_eq!(h.plan(&"hello".to_string()), MessageAction::Silent);
}
