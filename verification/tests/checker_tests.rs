use blabber::checker::{verify_rules, IntermediateRuleset};
use blabber::error_handling::{Error, Location};
use blabber::grammar::Symbol;
use blabber::parser::{grammar_from_rules, CompileErrorType, Rule};

fn rule_a_uses_b(line: usize) -> Rule {
    Rule {
        symbol: "A".to_string(),
        rewrite: vec![vec![
            Symbol::Terminal("x".to_string()),
            Symbol::Nonterminal("B".to_string()),
        ]],
        location: Location { file: "g.bnf".to_string(), line },
    }
}

#[test]
fn undefined_reference_is_reported_once_at_the_defining_rule() {
    let mut ruleset = IntermediateRuleset::new();
    ruleset.insert(rule_a_uses_b(5));

    let errors = verify_rules(&ruleset).unwrap_err();
    assert_eq!(
        errors,
        vec![Error {
            location: Location { file: "g.bnf".to_string(), line: 5 },
            error: CompileErrorType::UndefinedNonterminal("B".to_string()),
        }]
    );
}

#[test]
fn unverified_ruleset_never_becomes_a_grammar() {
    let result = grammar_from_rules(vec![rule_a_uses_b(5)]);
    assert_eq!(
        result.unwrap_err(),
        vec![Error {
            location: Location { file: "g.bnf".to_string(), line: 5 },
            error: CompileErrorType::UndefinedNonterminal("B".to_string()),
        }]
    );
}

#[test]
fn closed_ruleset_verifies() {
    let mut ruleset = IntermediateRuleset::new();
    ruleset.insert(rule_a_uses_b(1));
    ruleset.insert(Rule {
        symbol: "B".to_string(),
        rewrite: vec![vec![Symbol::Terminal("y".to_string())]],
        location: Location { file: "g.bnf".to_string(), line: 2 },
    });
    assert!(verify_rules(&ruleset).is_ok());
}

#[test]
fn all_undefined_references_are_collected() {
    let mut ruleset = IntermediateRuleset::new();
    ruleset.insert(Rule {
        symbol: "A".to_string(),
        rewrite: vec![
            vec![Symbol::Nonterminal("B".to_string())],
            vec![Symbol::Nonterminal("C".to_string())],
        ],
        location: Location { file: "g.bnf".to_string(), line: 1 },
    });

    let errors = verify_rules(&ruleset).unwrap_err();
    assert_eq!(errors.len(), 2);
    assert_eq!(
        errors[0].error,
        CompileErrorType::UndefinedNonterminal("B".to_string())
    );
    assert_eq!(
        errors[1].error,
        CompileErrorType::UndefinedNonterminal("C".to_string())
    );
}
