use script_lexer::tokenizer::Token;
use script_lexer::tokenizer::tokenize;
use script_lexer::utils::{eval, eval_untyped, handle_string_escapes};

#[test]
fn each_escape_rule_substitutes() {
    assert_eq!(handle_string_escapes("a\\nb"), "a\nb");
    assert_eq!(handle_string_escapes("\\t\\r\\0"), "\t\r\0");
    assert_eq!(handle_string_escapes("\\'\\\""), "'\"");
    assert_eq!(handle_string_escapes("\\\\"), "\\");
}

#[test]
fn unknown_escape_stays_verbatim() {
    assert_eq!(handle_string_escapes("\\q"), "\\q");
    assert_eq!(handle_string_escapes("a\\zb"), "a\\zb");
}

#[test]
fn backslash_rule_runs_before_the_others() {
    // Literal backslash-backslash-n: the backslash rule leaves backslash-n,
    // which the newline rule then takes. A single left-to-right scan that
    // kept the decoded backslash verbatim would answer differently.
    assert_eq!(handle_string_escapes("\\\\n"), "\n");
    assert_eq!(handle_string_escapes("\\\\t"), "\t");
    assert_eq!(handle_string_escapes("\\\\\\\\"), "\\\\");
}

#[test]
fn escapes_decode_inside_tokenized_strings() {
    assert_eq!(
        tokenize("\"tab\\there\""),
        Ok(vec![Token::String("tab\there".to_string())])
    );
}

#[test]
fn eval_untyped_hands_the_token_sequence_onward() {
    assert_eq!(eval_untyped("// nothing to do"), Ok(None));
    assert_eq!(eval_untyped("   "), Ok(None));
    assert_eq!(eval_untyped("let"), Ok(Some(vec![Token::Let])));
    assert_eq!(
        eval_untyped("@"),
        Err("Unexpected token: @".to_string())
    );
}

#[test]
fn eval_matches_the_untyped_entry_point() {
    assert_eq!(
        eval("1 + 2"),
        Ok(Some(vec![Token::Number(1), Token::Plus, Token::Number(2)]))
    );
    assert_eq!(eval(""), Ok(None));
    assert_eq!(eval("\"open"), Err("Unclosed string literal".to_string()));
}
