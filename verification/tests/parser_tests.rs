use blabber::error_handling::Location;
use blabber::grammar::Symbol;
use blabber::lexer::{lex_line, Token};
use blabber::parser::{parse_alternative, parse_line, CompileErrorType, Rule};

fn s_nonterminal(text: &str) -> Symbol {
    Symbol::Nonterminal(text.to_string())
}

fn s_terminal(text: &str) -> Symbol {
    Symbol::Terminal(text.to_string())
}

fn here() -> Location {
    Location { file: String::new(), line: 0 }
}

#[test]
fn parse_normal_alternative() {
    let lines = vec![
        vec![
            Token::Nonterminal("personal.part".to_string()),
            Token::Nonterminal("last.name".to_string()),
            Token::Nonterminal("opt.suffix.name".to_string()),
            Token::Terminal("\\n".to_string()),
        ],
        vec![
            Token::Nonterminal("town.name".to_string()),
            Token::Terminal(",".to_string()),
        ],
    ];
    let answers = vec![
        vec![
            s_nonterminal("personal.part"),
            s_nonterminal("last.name"),
            s_nonterminal("opt.suffix.name"),
            s_terminal("\\n"),
        ],
        vec![s_nonterminal("town.name"), s_terminal(",")],
    ];

    for (line, answer) in std::iter::zip(lines, answers) {
        assert_eq!(parse_alternative(&line[..]).unwrap(), answer);
    }
}

#[test]
fn parse_malformed_alternative() {
    assert_eq!(
        parse_alternative(&[Token::Equals]),
        Err(CompileErrorType::UnexpectedEquals)
    );
    assert_eq!(parse_alternative(&[Token::Or]), Err(CompileErrorType::UnsplitRewrite));
}

#[test]
fn parse_normal_line() {
    let text = "personal.part = first.name | initial \".\"";
    let lexed = lex_line(text).unwrap();
    let location = here();

    let answer = Rule {
        symbol: "personal.part".to_string(),
        rewrite: vec![
            vec![s_nonterminal("first.name")],
            vec![s_nonterminal("initial"), s_terminal(".")],
        ],
        location: location.clone(),
    };

    assert_eq!(parse_line(&lexed[..], location), Ok(answer));
}

#[test]
fn parse_malformed_line() {
    // Blank
    assert_eq!(parse_line(&[], here()), Err(CompileErrorType::UnexpectedBlankLine));

    // Missing equals
    assert_eq!(
        parse_line(&lex_line("alpha bravo charlie").unwrap()[..], here()),
        Err(CompileErrorType::MissingEquals)
    );

    // Improper definition
    assert_eq!(
        parse_line(&lex_line("\"alpha\" = bravo charlie").unwrap()[..], here()),
        Err(CompileErrorType::MissingNonterminal)
    );
    assert_eq!(
        parse_line(&lex_line("| = alpha bravo charlie").unwrap()[..], here()),
        Err(CompileErrorType::MissingNonterminal)
    );
    assert_eq!(
        parse_line(&lex_line("= alpha bravo charlie").unwrap()[..], here()),
        Err(CompileErrorType::MissingNonterminal)
    );
}

#[test]
fn compile_error_messages() {
    assert_eq!(
        CompileErrorType::MissingEquals.message(),
        "Expected `=` after nonterminal"
    );
    assert_eq!(
        CompileErrorType::UnexpectedEquals.message(),
        "Unexpected `=` encountered"
    );
    assert_eq!(
        CompileErrorType::UndefinedNonterminal("noun".to_string()).message(),
        "Could not find definition for `noun`"
    );
    assert_eq!(
        CompileErrorType::FileError("entry not found".to_string()).message(),
        "File error: entry not found"
    );
}
