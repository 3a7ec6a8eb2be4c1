use blabber::lexer::{lex_line, lex_nonterminal, lex_terminal, Token};
use blabber::parser::CompileErrorType;

fn rest_of(line: &str, from: usize) -> String {
    line.chars().skip(from).collect()
}

#[test]
fn lex_normal_terminal() {
    let lines = vec![
        "\"alpha\" bravo charlie",
        "\"delta\"",
        "\"january\"\"february\"\"march\"",
    ];
    // (result from the function, rest of the line)
    let answers = vec![
        (Token::Terminal("alpha".to_string()), " bravo charlie"),
        (Token::Terminal("delta".to_string()), ""),
        (Token::Terminal("january".to_string()), "\"february\"\"march\""),
    ];

    for (line, (answer_token, answer_rest)) in std::iter::zip(lines, answers) {
        let (token, next) = lex_terminal(line, 0).unwrap();
        assert_eq!(token, answer_token);
        assert_eq!(rest_of(line, next), answer_rest);
    }
}

#[test]
fn lex_mismatched_terminal() {
    let lines = vec!["\"welcome", "\"alpha bravo charlie"];

    for line in lines {
        // consume the leading quote by hand, as if mid-line, so the
        // next character is taken for the opening quote
        assert_eq!(lex_terminal(line, 1).unwrap_err(), CompileErrorType::UnmatchedQuote);
    }
}

#[test]
fn lex_normal_nonterminal() {
    let lines = vec!["alpha bravo charlie", "delta", "january february march"];
    // (result from the function, rest of the line)
    let answers = vec![
        (Token::Nonterminal("alpha".to_string()), "bravo charlie"),
        (Token::Nonterminal("delta".to_string()), ""),
        (Token::Nonterminal("january".to_string()), "february march"),
    ];

    for (line, (answer_token, answer_rest)) in std::iter::zip(lines, answers) {
        let (token, next) = lex_nonterminal(line, 0);
        assert_eq!(token, answer_token);
        assert_eq!(rest_of(line, next), answer_rest);
    }
}

#[test]
fn lex_normal_line() {
    let lines = vec![
        "personal.part = first.name | initial \".\"",
        "opt.apt.num = \"Apt\" apt.num | \"\"",
    ];
    let answers = vec![
        vec![
            Token::Nonterminal("personal.part".to_string()),
            Token::Equals,
            Token::Nonterminal("first.name".to_string()),
            Token::Or,
            Token::Nonterminal("initial".to_string()),
            Token::Terminal(".".to_string()),
        ],
        vec![
            Token::Nonterminal("opt.apt.num".to_string()),
            Token::Equals,
            Token::Terminal("Apt".to_string()),
            Token::Nonterminal("apt.num".to_string()),
            Token::Or,
            Token::Terminal("".to_string()),
        ],
    ];

    for (line, answer) in std::iter::zip(lines, answers) {
        assert_eq!(lex_line(line).unwrap(), answer)
    }
}

#[test]
fn lex_terminal_then_nonterminals() {
    assert_eq!(
        lex_line("\"alpha\" bravo charlie").unwrap(),
        vec![
            Token::Terminal("alpha".to_string()),
            Token::Nonterminal("bravo".to_string()),
            Token::Nonterminal("charlie".to_string()),
        ]
    );
}

#[test]
fn lex_unterminated_quote_fails_line() {
    assert_eq!(lex_line("\"welcome").unwrap_err(), CompileErrorType::UnmatchedQuote);
    // the failure is line-local: tokens already lexed are discarded
    assert_eq!(
        lex_line("greeting = \"hello").unwrap_err(),
        CompileErrorType::UnmatchedQuote
    );
}
