use blabber::error_handling::{Error, Location};
use blabber::grammar::{Grammar, RuleMap, Symbol};
use blabber::parser::{io_error, parse_lines, CompileErrorType, LineInput};

fn s_nonterminal(text: &str) -> Symbol {
    Symbol::Nonterminal(text.to_string())
}

fn s_terminal(text: &str) -> Symbol {
    Symbol::Terminal(text.to_string())
}

fn lines_of(texts: &[&str]) -> Vec<LineInput> {
    texts.iter().map(|t| LineInput::Line(t.to_string())).collect()
}

#[test]
fn parse_normal_file() {
    let example_path = "example_data/english.bnf".to_string();
    let lines = lines_of(&[
        "sentence = noun.phrase \" \" verb.phrase",
        "",
        "noun.phrase = adjective.phrase \" \" noun | noun",
        "noun = \"ideas\"",
        "adjective.phrase = adjective \", \" adjective.phrase | adjective",
        "adjective = \"colorless\" | \"green\"",
        "",
        "verb.phrase = verb \" \" adverb | adverb \" \" verb \" \" noun.phrase",
        "verb = \"hug\"",
        "adverb.phrase = adverb \", \" adverb.phrase | adverb",
        "adverb = \"furiously\"",
    ]);
    let example_parsed = parse_lines(&example_path, lines).unwrap();

    let mut rules = RuleMap::new();
    rules.insert(
        "sentence".to_string(),
        vec![vec![
            s_nonterminal("noun.phrase"),
            s_terminal(" "),
            s_nonterminal("verb.phrase"),
        ]],
    );
    rules.insert(
        "noun.phrase".to_string(),
        vec![
            vec![
                s_nonterminal("adjective.phrase"),
                s_terminal(" "),
                s_nonterminal("noun"),
            ],
            vec![s_nonterminal("noun")],
        ],
    );
    rules.insert("noun".to_string(), vec![vec![s_terminal("ideas")]]);
    rules.insert(
        "adjective.phrase".to_string(),
        vec![
            vec![
                s_nonterminal("adjective"),
                s_terminal(", "),
                s_nonterminal("adjective.phrase"),
            ],
            vec![s_nonterminal("adjective")],
        ],
    );
    rules.insert(
        "adjective".to_string(),
        vec![vec![s_terminal("colorless")], vec![s_terminal("green")]],
    );
    rules.insert(
        "verb.phrase".to_string(),
        vec![
            vec![s_nonterminal("verb"), s_terminal(" "), s_nonterminal("adverb")],
            vec![
                s_nonterminal("adverb"),
                s_terminal(" "),
                s_nonterminal("verb"),
                s_terminal(" "),
                s_nonterminal("noun.phrase"),
            ],
        ],
    );
    rules.insert("verb".to_string(), vec![vec![s_terminal("hug")]]);
    rules.insert(
        "adverb.phrase".to_string(),
        vec![
            vec![s_nonterminal("adverb"), s_terminal(", "), s_nonterminal("adverb.phrase")],
            vec![s_nonterminal("adverb")],
        ],
    );
    rules.insert("adverb".to_string(), vec![vec![s_terminal("furiously")]]);

    assert_eq!(
        example_parsed,
        Grammar { start_symbol: "sentence".to_string(), rules }
    );
}

#[test]
fn parse_malformed_file() {
    let example_path = "example_data/malformed.bnf".to_string();
    let lines = lines_of(&[
        "greeting = \"hello\"",
        "; a comment line is skipped entirely",
        "\"oops\" = word",
        "",
        "farewell = \"bye\"",
        "; another comment",
        "pair = left = right",
    ]);
    let example_parsed = parse_lines(&example_path, lines).unwrap_err();

    assert_eq!(
        example_parsed,
        vec![
            Error {
                location: Location { file: example_path.clone(), line: 3 },
                error: CompileErrorType::MissingNonterminal,
            },
            Error {
                location: Location { file: example_path, line: 7 },
                error: CompileErrorType::UnexpectedEquals,
            },
        ]
    );
}

#[test]
fn read_failure_is_collected_at_its_line() {
    let path = "broken.bnf".to_string();
    let lines = vec![
        LineInput::Line("greeting = \"hello\"".to_string()),
        LineInput::ReadError("stream did not contain valid UTF-8".to_string()),
        LineInput::Line("farewell = missing.rule".to_string()),
    ];
    let errors = parse_lines(&path, lines).unwrap_err();

    // the scan keeps going after the read failure, and the parse phase
    // reports all its errors before any cross-reference check runs
    assert_eq!(
        errors,
        vec![Error {
            location: Location { file: path, line: 2 },
            error: CompileErrorType::FileError(
                "stream did not contain valid UTF-8".to_string()
            ),
        }]
    );
}

#[test]
fn last_definition_wins() {
    let path = "dup.bnf".to_string();
    let lines = lines_of(&["word = \"first\"", "word = \"second\""]);
    let grammar = parse_lines(&path, lines).unwrap();

    let mut rules = RuleMap::new();
    rules.insert("word".to_string(), vec![vec![s_terminal("second")]]);
    assert_eq!(grammar, Grammar { start_symbol: "word".to_string(), rules });
}

#[test]
fn empty_file_gives_empty_grammar() {
    let path = "empty.bnf".to_string();
    let grammar = parse_lines(&path, Vec::new()).unwrap();
    assert_eq!(
        grammar,
        Grammar { start_symbol: String::new(), rules: RuleMap::new() }
    );
}

#[test]
fn leading_whitespace_is_not_a_comment() {
    // only a line whose first character is `;` is a comment; after
    // leading whitespace, `;` starts an ordinary nonterminal name
    let path = "odd.bnf".to_string();
    let grammar = parse_lines(&path, lines_of(&[" ;x = \"y\""])).unwrap();
    assert_eq!(grammar.start_symbol, ";x");
}

#[test]
fn io_error_is_located_at_the_file() {
    let err = io_error("entry not found".to_string(), "gone.bnf".to_string());
    assert_eq!(
        err,
        Error {
            location: Location { file: "gone.bnf".to_string(), line: 0 },
            error: CompileErrorType::FileError("entry not found".to_string()),
        }
    );
}
