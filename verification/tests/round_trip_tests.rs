use blabber::parser::{parse_lines, LineInput};
use blabber::serializer::{serialize_grammar, serialize_rule};

fn parse(path: &str, texts: Vec<String>) -> blabber::grammar::Grammar {
    let lines = texts.into_iter().map(LineInput::Line).collect();
    parse_lines(&path.to_string(), lines).unwrap()
}

#[test]
fn serialize_rule_renders_tokens_space_separated() {
    let grammar = parse(
        "g.bnf",
        vec!["greeting   =   \"hello\"    name |\"hi\"".to_string(), "name = \"ada\"".to_string()],
    );
    let entry = &grammar.rules;
    // the first rule re-serializes with single spaces and quoted
    // terminals, whatever the original spacing was
    let first = serialize_rule(&grammar.start_symbol, entry.get(&grammar.start_symbol).unwrap());
    assert_eq!(first, "greeting = \"hello\" name | \"hi\"");
}

#[test]
fn parse_serialize_reparse_rebuilds_the_grammar() {
    let original_texts = vec![
        "sentence = noun.phrase \" \" verb.phrase".to_string(),
        "; the grammar of a tiny english".to_string(),
        "noun.phrase = adjective.phrase \" \" noun | noun".to_string(),
        "noun = \"ideas\"".to_string(),
        "adjective.phrase = adjective \", \" adjective.phrase | adjective".to_string(),
        "adjective = \"colorless\" | \"green\"".to_string(),
        "verb.phrase = verb \" \" adverb | adverb \" \" verb \" \" noun.phrase".to_string(),
        "verb = \"hug\"".to_string(),
        "adverb.phrase = adverb \", \" adverb.phrase | adverb".to_string(),
        "adverb = \"furiously\"".to_string(),
        "epsilon.rule = \"\" | noun".to_string(),
    ];
    let first = parse("english.bnf", original_texts);

    let serialized: Vec<String> = serialize_grammar(&first);
    let second = parse("english.generated.bnf", serialized);

    // structurally equal: same start symbol, same rules in the same
    // order (locations are not part of a compiled grammar)
    assert_eq!(first, second);
}

#[test]
fn reserializing_the_reparse_is_stable() {
    let texts = vec![
        "list = item | item \", \" list".to_string(),
        "item = \"leaf\"".to_string(),
    ];
    let first = parse("list.bnf", texts);
    let once = serialize_grammar(&first);
    let second = parse("list.generated.bnf", once.clone());
    let twice = serialize_grammar(&second);
    assert_eq!(once, twice);
}
