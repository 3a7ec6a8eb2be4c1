use blabber::generator::{generate, generate_with_override, GenerateErrorType};
use blabber::parser::{parse_lines, LineInput};

fn parse(texts: &[&str]) -> blabber::grammar::Grammar {
    let lines = texts.iter().map(|t| LineInput::Line(t.to_string())).collect();
    parse_lines(&"g.bnf".to_string(), lines).unwrap()
}

#[test]
fn terminal_only_rule_is_deterministic() {
    let grammar = parse(&["greeting = \"hello\" \" \" \"world\""]);
    // a single alternative of terminals leaves nothing to chance: every
    // attempt yields the same sentence
    let first = generate(&grammar).unwrap();
    let second = generate(&grammar).unwrap();
    assert_eq!(first, "hello world");
    assert_eq!(second, "hello world");
}

#[test]
fn empty_alternative_yields_empty_string() {
    let grammar = parse(&["nothing ="]);
    assert_eq!(generate(&grammar).unwrap(), "");
}

#[test]
fn empty_terminal_denotes_epsilon() {
    let grammar = parse(&["epsilon = \"\""]);
    assert_eq!(generate(&grammar).unwrap(), "");
}

#[test]
fn unknown_override_fails_with_undefined_nonterminal() {
    let grammar = parse(&["word = \"yes\""]);
    assert_eq!(
        generate_with_override(&grammar, &"missing".to_string()),
        Err(GenerateErrorType::UndefinedNonterminal("missing".to_string()))
    );
    assert_eq!(
        generate_with_override(&grammar, &"word".to_string()),
        Ok("yes".to_string())
    );
}

#[test]
fn nested_rules_expand_recursively() {
    let grammar = parse(&[
        "sentence = subject \" \" verb",
        "subject = \"ideas\"",
        "verb = \"sleep\"",
    ]);
    assert_eq!(generate(&grammar).unwrap(), "ideas sleep");
}

#[test]
fn random_choice_stays_within_the_alternatives() {
    let grammar = parse(&["coin = \"heads\" | \"tails\""]);
    for _ in 0..32 {
        let flip = generate(&grammar).unwrap();
        assert!(flip == "heads" || flip == "tails");
    }
}

#[test]
fn endless_grammar_hits_the_recursion_limit() {
    let grammar = parse(&["echo = echo"]);
    assert_eq!(generate(&grammar), Err(GenerateErrorType::RecursionLimit));
}

#[test]
fn generate_error_messages() {
    assert_eq!(
        GenerateErrorType::UndefinedNonterminal("noun".to_string()).message(),
        "No definition for nonterminal `noun`"
    );
}
