//! Parsing of grammar rule lines and assembly of whole grammar files.
//!
//! A token sequence from the lexer becomes one [`Rule`]; the rules of a
//! file become a [`Grammar`](crate::grammar::Grammar) once the
//! cross-reference check of [`crate::checker`] found nothing undefined.

use vstd::prelude::*;

use crate::checker::{
    rule_insert, spec_dedup, spec_dedup_into, spec_rules_undef, strip_rules, verify_rules,
    IntermediateRuleset,
};
use crate::error_handling::{Error, ErrorModel, ErrorType, Errors, Location, LocationModel};
use crate::grammar::{
    map_of_entries, Alternative, AlternativeModel, Grammar, Rewrite, RewriteModel, RuleMap,
    Symbol, SymbolModel,
};
use crate::lexer::{lex_line, spec_lex, Token, TokenModel};

verus! {

/// Everything that can go wrong while compiling a grammar file.
#[derive(Debug, PartialEq)]
pub enum CompileErrorType {
    /// A rule line does not follow its nonterminal with `=`.
    MissingEquals,
    /// A `=` stands inside the alternatives of a rule.
    UnexpectedEquals,
    /// A rule line starts with something other than a nonterminal.
    MissingNonterminal,
    /// A terminal's closing quote is missing.
    UnmatchedQuote,
    /// A nonterminal is referenced but nowhere defined.
    UndefinedNonterminal(String),
    /// An `|` reached the alternative parser, which only ever receives
    /// the pieces between the `|` separators.
    UnsplitRewrite,
    /// An empty token sequence reached the rule parser.
    UnexpectedBlankLine,
    /// A file could not be read; carries the reported reason.
    FileError(String),
}

/// The mathematical value of a [`CompileErrorType`].
pub enum CompileErrorTypeModel {
    /// A rule line does not follow its nonterminal with `=`.
    MissingEquals,
    /// A `=` stands inside the alternatives of a rule.
    UnexpectedEquals,
    /// A rule line starts with something other than a nonterminal.
    MissingNonterminal,
    /// A terminal's closing quote is missing.
    UnmatchedQuote,
    /// A nonterminal is referenced but nowhere defined.
    UndefinedNonterminal(Seq<char>),
    /// An `|` reached the alternative parser.
    UnsplitRewrite,
    /// An empty token sequence reached the rule parser.
    UnexpectedBlankLine,
    /// A file could not be read; carries the reported reason.
    FileError(Seq<char>),
}

impl DeepView for CompileErrorType {
    type V = CompileErrorTypeModel;

    open spec fn deep_view(&self) -> CompileErrorTypeModel {
        match self {
            CompileErrorType::MissingEquals => CompileErrorTypeModel::MissingEquals,
            CompileErrorType::UnexpectedEquals => CompileErrorTypeModel::UnexpectedEquals,
            CompileErrorType::MissingNonterminal => CompileErrorTypeModel::MissingNonterminal,
            CompileErrorType::UnmatchedQuote => CompileErrorTypeModel::UnmatchedQuote,
            CompileErrorType::UndefinedNonterminal(n) => CompileErrorTypeModel::UndefinedNonterminal(
                n@,
            ),
            CompileErrorType::UnsplitRewrite => CompileErrorTypeModel::UnsplitRewrite,
            CompileErrorType::UnexpectedBlankLine => CompileErrorTypeModel::UnexpectedBlankLine,
            CompileErrorType::FileError(m) => CompileErrorTypeModel::FileError(m@),
        }
    }
}

impl ErrorType for CompileErrorType {

}

/// The message that [`CompileErrorType::message`] renders.
pub open spec fn spec_compile_error_message(e: CompileErrorTypeModel) -> Seq<char> {
    match e {
        CompileErrorTypeModel::MissingEquals => "Expected `=` after nonterminal"@,
        CompileErrorTypeModel::UnexpectedEquals => "Unexpected `=` encountered"@,
        CompileErrorTypeModel::MissingNonterminal => {
            "Tried to define something other than a nonterminal"@
        },
        CompileErrorTypeModel::UnmatchedQuote => "Unmatched quotes"@,
        CompileErrorTypeModel::UndefinedNonterminal(n) => {
            "Could not find definition for `"@ + n + "`"@
        },
        CompileErrorTypeModel::UnsplitRewrite => {
            "Rewrite was not fully split (this is a problem with blabber, not the grammar)"@
        },
        CompileErrorTypeModel::UnexpectedBlankLine => {
            "Blank line encountered in rule parser (this is a problem with blabber, not the grammar)"@
        },
        CompileErrorTypeModel::FileError(m) => "File error: "@ + m,
    }
}

impl CompileErrorType {
    /// The human-readable description of this error.
    pub fn message(&self) -> (r: String)
        ensures
            r@ == spec_compile_error_message(self.deep_view()),
    {
        match self {
            CompileErrorType::MissingEquals => "Expected `=` after nonterminal".to_owned(),
            CompileErrorType::UnexpectedEquals => "Unexpected `=` encountered".to_owned(),
            CompileErrorType::MissingNonterminal => {
                "Tried to define something other than a nonterminal".to_owned()
            },
            CompileErrorType::UnmatchedQuote => "Unmatched quotes".to_owned(),
            CompileErrorType::UndefinedNonterminal(n) => {
                let mut s = "Could not find definition for `".to_owned();
                s.append(n.as_str());
                s.append("`");
                s
            },
            CompileErrorType::UnsplitRewrite => {
                "Rewrite was not fully split (this is a problem with blabber, not the grammar)".to_owned()
            },
            CompileErrorType::UnexpectedBlankLine => {
                "Blank line encountered in rule parser (this is a problem with blabber, not the grammar)".to_owned()
            },
            CompileErrorType::FileError(m) => {
                let mut s = "File error: ".to_owned();
                s.append(m.as_str());
                s
            },
        }
    }
}

/// A compile error together with the line it arose at.
pub type CompileError = Error<CompileErrorType>;

/// A list of located compile errors.
pub type CompileErrors = Errors<CompileErrorType>;

/// What processing a whole file yields: the compiled value, or every
/// located error the scan found.
pub type FileResult<T> = Result<T, CompileErrors>;

/// One parsed rule line: the nonterminal it defines, its rewrite, and
/// the line it was declared on. Rules exist only between line parsing
/// and ruleset assembly; the compiled grammar keeps no locations.
#[derive(Debug, PartialEq)]
pub struct Rule {
    /// The nonterminal this rule defines.
    pub symbol: String,
    /// The alternatives the nonterminal rewrites to.
    pub rewrite: Rewrite,
    /// Where the rule was declared.
    pub location: Location,
}

/// The mathematical value of a [`Rule`].
pub struct RuleModel {
    /// The nonterminal this rule defines.
    pub symbol: Seq<char>,
    /// The alternatives the nonterminal rewrites to.
    pub rewrite: RewriteModel,
    /// Where the rule was declared.
    pub location: LocationModel,
}

impl DeepView for Rule {
    type V = RuleModel;

    open spec fn deep_view(&self) -> RuleModel {
        RuleModel {
            symbol: self.symbol@,
            rewrite: self.rewrite.deep_view(),
            location: self.location.deep_view(),
        }
    }
}

/// The symbols of one alternative: every token of the group mapped to
/// the symbol it denotes, or the first offending token's error.
pub open spec fn spec_parse_alternative(ts: Seq<TokenModel>) -> Result<
    AlternativeModel,
    CompileErrorTypeModel,
>
    decreases ts.len(),
{
    if ts.len() == 0 {
        Ok(Seq::empty())
    } else {
        match ts[0] {
            TokenModel::Equals => Err(CompileErrorTypeModel::UnexpectedEquals),
            TokenModel::Or => Err(CompileErrorTypeModel::UnsplitRewrite),
            TokenModel::Nonterminal(s) => match spec_parse_alternative(ts.drop_first()) {
                Ok(syms) => Ok(seq![SymbolModel::Nonterminal(s)] + syms),
                Err(e) => Err(e),
            },
            TokenModel::Terminal(s) => match spec_parse_alternative(ts.drop_first()) {
                Ok(syms) => Ok(seq![SymbolModel::Terminal(s)] + syms),
                Err(e) => Err(e),
            },
        }
    }
}

/// The position of the first `|` token at or after `i`, or the number
/// of tokens if there is none.
pub open spec fn scan_or(ts: Seq<TokenModel>, i: int) -> int
    decreases ts.len() - i,
{
    if i < 0 || i >= ts.len() {
        ts.len() as int
    } else if ts[i] is Or {
        i
    } else {
        scan_or(ts, i + 1)
    }
}

/// Where `scan_or` can land, and what stands there.
pub proof fn lemma_scan_or(ts: Seq<TokenModel>, i: int)
    ensures
        scan_or(ts, i) <= ts.len(),
        0 <= i <= ts.len() ==> i <= scan_or(ts, i),
        0 <= i && scan_or(ts, i) < ts.len() ==> ts[scan_or(ts, i)] is Or,
        forall|k: int| 0 <= i <= k < scan_or(ts, i) ==> !(ts[k] is Or),
    decreases ts.len() - i,
{
    if 0 <= i < ts.len() && !(ts[i] is Or) {
        lemma_scan_or(ts, i + 1);
    }
}

/// `scan_or` lands exactly on the first `|` token.
pub proof fn lemma_scan_or_at(ts: Seq<TokenModel>, i: int, j: int)
    requires
        0 <= i <= j <= ts.len(),
        forall|k: int| i <= k < j ==> !((#[trigger] ts[k]) is Or),
        j < ts.len() ==> ts[j] is Or,
    ensures
        scan_or(ts, i) == j,
    decreases j - i,
{
    if i < j {
        lemma_scan_or_at(ts, i + 1, j);
    }
}

/// The alternatives of the token region of a rule after its `=`: the
/// region split at each `|`, each group parsed as one alternative, or
/// the first offending token's error. Splitting always yields one group
/// more than there are `|` tokens, so a rewrite from parsing never has
/// zero alternatives.
pub open spec fn spec_parse_rewrite(ts: Seq<TokenModel>) -> Result<
    RewriteModel,
    CompileErrorTypeModel,
>
    decreases ts.len(),
    via spec_parse_rewrite_dec
{
    let k = scan_or(ts, 0);
    if k >= ts.len() {
        match spec_parse_alternative(ts) {
            Ok(alt) => Ok(seq![alt]),
            Err(e) => Err(e),
        }
    } else {
        match spec_parse_alternative(ts.take(k)) {
            Ok(alt) => match spec_parse_rewrite(ts.skip(k + 1)) {
                Ok(rest) => Ok(seq![alt] + rest),
                Err(e) => Err(e),
            },
            Err(e) => Err(e),
        }
    }
}

#[via_fn]
proof fn spec_parse_rewrite_dec(ts: Seq<TokenModel>) {
    lemma_scan_or(ts, 0);
}

/// The rule a lexed line declares: its first token must be the defined
/// nonterminal, its second the `=`, and the rest its rewrite; otherwise
/// the first applicable failure, in that order, wins.
pub open spec fn spec_parse_line(ts: Seq<TokenModel>, loc: LocationModel) -> Result<
    RuleModel,
    CompileErrorTypeModel,
> {
    if ts.len() == 0 {
        Err(CompileErrorTypeModel::UnexpectedBlankLine)
    } else {
        match ts[0] {
            TokenModel::Nonterminal(name) => {
                if ts.len() < 2 || !(ts[1] is Equals) {
                    Err(CompileErrorTypeModel::MissingEquals)
                } else {
                    match spec_parse_rewrite(ts.skip(2)) {
                        Ok(rw) => Ok(RuleModel { symbol: name, rewrite: rw, location: loc }),
                        Err(e) => Err(e),
                    }
                }
            },
            _ => Err(CompileErrorTypeModel::MissingNonterminal),
        }
    }
}

/// `rest` with the symbols `p` put in front, an error staying as it is.
pub open spec fn alt_concat(
    p: AlternativeModel,
    rest: Result<AlternativeModel, CompileErrorTypeModel>,
) -> Result<AlternativeModel, CompileErrorTypeModel> {
    match rest {
        Ok(syms) => Ok(p + syms),
        Err(e) => Err(e),
    }
}

/// `rest` with the alternatives `p` put in front, an error staying as
/// it is.
pub open spec fn rewrite_concat(
    p: RewriteModel,
    rest: Result<RewriteModel, CompileErrorTypeModel>,
) -> Result<RewriteModel, CompileErrorTypeModel> {
    match rest {
        Ok(alts) => Ok(p + alts),
        Err(e) => Err(e),
    }
}

/// Turns one token group between `|` separators into an alternative:
/// each word becomes a nonterminal reference, each quoted text a
/// terminal; a stray `=` fails with `UnexpectedEquals`, a stray `|`
/// with `UnsplitRewrite`.
pub fn parse_alternative(tokens: &[Token]) -> (r: Result<Alternative, CompileErrorType>)
    ensures
        match r {
            Ok(alt) => spec_parse_alternative(tokens.deep_view()) == Ok::<
                AlternativeModel,
                CompileErrorTypeModel,
            >(alt.deep_view()),
            Err(e) => spec_parse_alternative(tokens.deep_view()) == Err::<
                AlternativeModel,
                CompileErrorTypeModel,
            >(e.deep_view()),
        },
{
    let ghost ts = tokens.deep_view();
    let mut syms: Vec<Symbol> = Vec::new();
    let mut i: usize = 0;
    proof {
        assert(ts.skip(0) =~= ts);
        assert(syms.deep_view() =~= Seq::<SymbolModel>::empty());
    }
    while i < tokens.len()
        invariant
            0 <= i <= ts.len(),
            ts == tokens.deep_view(),
            ts.len() == tokens@.len(),
            spec_parse_alternative(ts) == alt_concat(
                syms.deep_view(),
                spec_parse_alternative(ts.skip(i as int)),
            ),
        decreases ts.len() - i,
    {
        let ghost prev = syms.deep_view();
        proof {
            assert(ts.skip(i as int)[0] == ts[i as int]);
            assert(ts.skip(i as int).drop_first() =~= ts.skip(i as int + 1));
        }
        match &tokens[i] {
            Token::Equals => {
                return Err(CompileErrorType::UnexpectedEquals);
            },
            Token::Or => {
                return Err(CompileErrorType::UnsplitRewrite);
            },
            Token::Nonterminal(s) => {
                syms.push(Symbol::Nonterminal(s.clone()));
                proof {
                    let m = SymbolModel::Nonterminal(s@);
                    assert(syms.deep_view() =~= prev.push(m));
                    lemma_alt_concat_push(prev, m, spec_parse_alternative(ts.skip(i as int + 1)));
                }
            },
            Token::Terminal(s) => {
                syms.push(Symbol::Terminal(s.clone()));
                proof {
                    let m = SymbolModel::Terminal(s@);
                    assert(syms.deep_view() =~= prev.push(m));
                    lemma_alt_concat_push(prev, m, spec_parse_alternative(ts.skip(i as int + 1)));
                }
            },
        }
        i = i + 1;
    }
    proof {
        assert(ts.skip(i as int) =~= Seq::<TokenModel>::empty());
        assert(syms.deep_view() + Seq::<SymbolModel>::empty() =~= syms.deep_view());
    }
    Ok(syms)
}

/// Putting a symbol in front of the prefix and concatenating is the
/// same as concatenating with the symbol put in front of the rest.
proof fn lemma_alt_concat_push(
    p: AlternativeModel,
    m: SymbolModel,
    rest: Result<AlternativeModel, CompileErrorTypeModel>,
)
    ensures
        alt_concat(p.push(m), rest) == alt_concat(
            p,
            match rest {
                Ok(syms) => Ok(seq![m] + syms),
                Err(e) => Err(e),
            },
        ),
{
    match rest {
        Ok(syms) => {
            assert(p.push(m) + syms =~= p + (seq![m] + syms));
        },
        Err(_) => {
        },
    }
}

/// Whether this token is the `|` separator.
fn token_is_or(t: &Token) -> (b: bool)
    ensures
        b == (t.deep_view() is Or),
{
    match t {
        Token::Or => true,
        _ => false,
    }
}

/// Splits the token region of a rule after its `=` at each `|` and
/// parses each group as one alternative; the first offending token
/// fails the whole region.
pub fn parse_rewrite(tokens: &[Token]) -> (r: Result<Rewrite, CompileErrorType>)
    ensures
        match r {
            Ok(rw) => spec_parse_rewrite(tokens.deep_view()) == Ok::<
                RewriteModel,
                CompileErrorTypeModel,
            >(rw.deep_view()),
            Err(e) => spec_parse_rewrite(tokens.deep_view()) == Err::<
                RewriteModel,
                CompileErrorTypeModel,
            >(e.deep_view()),
        },
{
    let ghost ts = tokens.deep_view();
    let mut alts: Vec<Alternative> = Vec::new();
    let mut p: usize = 0;
    proof {
        assert(ts.skip(0) =~= ts);
        assert(alts.deep_view() =~= Seq::<AlternativeModel>::empty());
    }
    loop
        invariant
            0 <= p <= ts.len(),
            ts == tokens.deep_view(),
            ts.len() == tokens@.len(),
            spec_parse_rewrite(ts) == rewrite_concat(
                alts.deep_view(),
                spec_parse_rewrite(ts.skip(p as int)),
            ),
        decreases ts.len() - p,
    {
        let ghost prev = alts.deep_view();
        let ghost suffix = ts.skip(p as int);
        let mut k: usize = p;
        while k < tokens.len() && !token_is_or(&tokens[k])
            invariant
                p <= k <= ts.len(),
                ts == tokens.deep_view(),
                ts.len() == tokens@.len(),
                scan_or(ts, p as int) == scan_or(ts, k as int),
            decreases ts.len() - k,
        {
            k = k + 1;
        }
        proof {
            lemma_scan_or(ts, k as int);
            assert(scan_or(ts, p as int) == k);
            lemma_scan_or_skip(ts, p as int);
            assert(scan_or(suffix, 0) == k - p);
        }
        let group = &tokens[p..k];
        proof {
            assert(group.deep_view() =~= suffix.take(k - p as int));
        }
        let alt = match parse_alternative(group) {
            Ok(alt) => alt,
            Err(e) => {
                proof {
                    if k == tokens@.len() {
                        assert(suffix.take(k - p as int) =~= suffix);
                    }
                }
                return Err(e);
            },
        };
        alts.push(alt);
        proof {
            assert(alts.deep_view() =~= prev.push(alt.deep_view()));
        }
        if k == tokens.len() {
            proof {
                assert(suffix.take(k - p as int) =~= suffix);
                assert(prev.push(alt.deep_view()) + Seq::<AlternativeModel>::empty() =~= prev.push(
                    alt.deep_view(),
                ));
                assert(prev.push(alt.deep_view()) =~= prev + seq![alt.deep_view()]);
            }
            return Ok(alts);
        }
        proof {
            assert(suffix.skip(k - p as int + 1) =~= ts.skip(k as int + 1));
            lemma_rewrite_concat_push(
                prev,
                alt.deep_view(),
                spec_parse_rewrite(ts.skip(k as int + 1)),
            );
        }
        p = k + 1;
    }
}

/// `scan_or` over a suffix is `scan_or` over the whole, shifted.
proof fn lemma_scan_or_skip(ts: Seq<TokenModel>, p: int)
    requires
        0 <= p <= ts.len(),
    ensures
        scan_or(ts.skip(p), 0) == scan_or(ts, p) - p,
    decreases ts.len() - p,
{
    lemma_scan_or_skip_from(ts, p, 0);
}

/// `scan_or` from position `i` of a suffix matches `scan_or` from the
/// corresponding position of the whole.
proof fn lemma_scan_or_skip_from(ts: Seq<TokenModel>, p: int, i: int)
    requires
        0 <= p <= ts.len(),
        0 <= i,
    ensures
        scan_or(ts.skip(p), i) == scan_or(ts, p + i) - p,
    decreases ts.len() - p - i,
{
    let suffix = ts.skip(p);
    if i < suffix.len() {
        assert(suffix[i] == ts[p + i]);
        if !(suffix[i] is Or) {
            lemma_scan_or_skip_from(ts, p, i + 1);
        }
    }
}

/// Putting an alternative in front of the prefix and concatenating is
/// the same as concatenating with the alternative put in front of the
/// rest.
proof fn lemma_rewrite_concat_push(
    p: RewriteModel,
    alt: AlternativeModel,
    rest: Result<RewriteModel, CompileErrorTypeModel>,
)
    ensures
        rewrite_concat(p.push(alt), rest) == rewrite_concat(
            p,
            match rest {
                Ok(alts) => Ok(seq![alt] + alts),
                Err(e) => Err(e),
            },
        ),
{
    match rest {
        Ok(alts) => {
            assert(p.push(alt) + alts =~= p + (seq![alt] + alts));
        },
        Err(_) => {
        },
    }
}

/// Whether this token is the `=` sign.
fn token_is_equals(t: &Token) -> (b: bool)
    ensures
        b == (t.deep_view() is Equals),
{
    match t {
        Token::Equals => true,
        _ => false,
    }
}

/// Turns one lexed line into the rule it declares: the first token
/// names the defined nonterminal, the second must be `=`, and the rest
/// is the rewrite. The first applicable failure, in the order blank
/// line, missing nonterminal, missing `=`, bad rewrite, wins.
pub fn parse_line(tokens: &[Token], location: Location) -> (r: Result<Rule, CompileErrorType>)
    ensures
        match r {
            Ok(rule) => spec_parse_line(tokens.deep_view(), location.deep_view()) == Ok::<
                RuleModel,
                CompileErrorTypeModel,
            >(rule.deep_view()),
            Err(e) => spec_parse_line(tokens.deep_view(), location.deep_view()) == Err::<
                RuleModel,
                CompileErrorTypeModel,
            >(e.deep_view()),
        },
{
    let ghost ts = tokens.deep_view();
    if tokens.len() == 0 {
        return Err(CompileErrorType::UnexpectedBlankLine);
    }
    let symbol = match &tokens[0] {
        Token::Nonterminal(s) => s.clone(),
        _ => {
            return Err(CompileErrorType::MissingNonterminal);
        },
    };
    if tokens.len() < 2 || !token_is_equals(&tokens[1]) {
        return Err(CompileErrorType::MissingEquals);
    }
    let region = &tokens[2..tokens.len()];
    proof {
        assert(region.deep_view() =~= ts.skip(2));
    }
    match parse_rewrite(region) {
        Ok(rewrite) => Ok(Rule { symbol, rewrite, location }),
        Err(e) => Err(e),
    }
}

/// Lexes and parses one line, wrapping any failure with the line's
/// location.
pub open spec fn spec_parse_lex_line(l: Seq<char>, loc: LocationModel) -> Result<
    RuleModel,
    ErrorModel<CompileErrorTypeModel>,
> {
    match spec_lex(l) {
        None => Err(
            ErrorModel { location: loc, error: CompileErrorTypeModel::UnmatchedQuote },
        ),
        Some(ts) => match spec_parse_line(ts, loc) {
            Ok(rule) => Ok(rule),
            Err(e) => Err(ErrorModel { location: loc, error: e }),
        },
    }
}

/// Lexes one line and parses the tokens into a rule; a failure of
/// either stage comes back wrapped with the line's location.
pub fn parse_lex_line(line: &str, location: Location) -> (r: Result<Rule, CompileError>)
    ensures
        match r {
            Ok(rule) => spec_parse_lex_line(line@, location.deep_view()) == Ok::<
                RuleModel,
                ErrorModel<CompileErrorTypeModel>,
            >(rule.deep_view()),
            Err(e) => spec_parse_lex_line(line@, location.deep_view()) == Err::<
                RuleModel,
                ErrorModel<CompileErrorTypeModel>,
            >(e.deep_view()),
        },
{
    match lex_line(line) {
        Err(e) => Err(Error { location, error: e }),
        Ok(tokens) => match parse_line(tokens.as_slice(), location.clone()) {
            Ok(rule) => Ok(rule),
            Err(e) => Err(Error { location, error: e }),
        },
    }
}

/// Whether a line is worth lexing at all: a line is skipped entirely if
/// it is empty or its first character is the `;` comment marker.
pub open spec fn spec_is_rule_line(l: Seq<char>) -> bool {
    l.len() > 0 && l[0] != ';'
}

/// Whether a line is a rule line rather than a blank or a `;` comment.
pub fn is_rule_line(line: &String) -> (r: bool)
    ensures
        r == spec_is_rule_line(line@),
{
    let n = line.as_str().unicode_len();
    n > 0 && line.as_str().get_char(0) != ';'
}

/// Assembles parsed rules into a rule table, the last definition of a
/// symbol winning, and hands the table to the cross-reference check:
/// either a table in which every referenced nonterminal is defined, or
/// the full list of located `UndefinedNonterminal` errors.
pub fn ruleset_from_rules(rules: Vec<Rule>) -> (r: FileResult<RuleMap>)
    ensures
        ({
            let ded = spec_dedup(rules.deep_view());
            match r {
                Ok(map) => spec_rules_undef(ded, ded).len() == 0 && map.wf() && map.entry_seq()
                    == strip_rules(ded) && crate::grammar::rules_closed(map@),
                Err(errs) => errs.deep_view() == spec_rules_undef(ded, ded)
                    && errs.deep_view().len() > 0,
            }
        }),
{
    let ghost full = rules.deep_view();
    let mut pending = rules;
    let mut ruleset = IntermediateRuleset::new();
    proof {
        assert(pending.deep_view() =~= full);
    }
    while pending.len() > 0
        invariant
            ruleset.wf(),
            spec_dedup(full) == spec_dedup_into(ruleset.rule_seq(), pending.deep_view()),
        decreases pending.len(),
    {
        let ghost rest = pending.deep_view();
        let ghost acc = ruleset.rule_seq();
        let rule = pending.remove(0);
        proof {
            assert(rest[0] == rule.deep_view());
            assert(pending.deep_view() =~= rest.drop_first());
        }
        ruleset.insert(rule);
        proof {
            assert(ruleset.rule_seq() == rule_insert(acc, rest[0]));
        }
    }
    proof {
        assert(pending.deep_view() =~= Seq::<RuleModel>::empty());
        assert(spec_dedup(full) == ruleset.rule_seq());
    }
    let ghost ded = ruleset.rule_seq();
    match verify_rules(&ruleset) {
        Err(errs) => Err(errs),
        Ok(_) => {
            proof {
                crate::checker::lemma_verified_closed(ded);
            }
            let mut map = RuleMap::new();
            let mut rem = ruleset.into_rules();
            let total = rem.len();
            let mut i: usize = 0;
            proof {
                assert(rem.deep_view() =~= ded.skip(0));
                assert(map.entry_seq() =~= strip_rules(ded.take(0)));
            }
            while rem.len() > 0
                invariant
                    0 <= i <= total,
                    total == ded.len(),
                    rem.deep_view() == ded.skip(i as int),
                    i + rem@.len() == total,
                    forall|j: int, k: int| 0 <= j < k < ded.len() ==> ded[j].symbol != ded[k].symbol,
                    map.wf(),
                    map.entry_seq() == strip_rules(ded.take(i as int)),
                decreases total - i,
            {
                let ghost rest = rem.deep_view();
                let ghost prev_entries = map.entry_seq();
                let rule = rem.remove(0);
                proof {
                    assert(rest[0] == rule.deep_view());
                    assert(rest[0] == ded[i as int]);
                    assert(rem.deep_view() =~= rest.drop_first());
                    assert(rem.deep_view() =~= ded.skip(i as int + 1));
                    if crate::grammar::entries_define(prev_entries, rule.symbol@) {
                        let j = choose|j: int|
                            0 <= j < prev_entries.len() && prev_entries[j].0 == rule.symbol@;
                        assert(prev_entries[j].0 == ded[j].symbol);
                        assert(false);
                    }
                }
                map.insert(rule.symbol, rule.rewrite);
                proof {
                    assert(map.entry_seq() =~= strip_rules(ded.take(i as int + 1)));
                }
                i = i + 1;
            }
            proof {
                assert(ded.take(i as int) =~= ded);
                map.lemma_view();
            }
            Ok(map)
        },
    }
}

/// Builds the compiled grammar from the parsed rules of a file: the
/// first rule's symbol becomes the start symbol (the empty string if
/// there are no rules at all), and the rule table must pass the
/// cross-reference check; otherwise the full list of located errors.
pub fn grammar_from_rules(rule_list: Vec<Rule>) -> (r: FileResult<Grammar>)
    ensures
        ({
            let ded = spec_dedup(rule_list.deep_view());
            match r {
                Ok(g) => spec_rules_undef(ded, ded).len() == 0 && g.wf() && g.rules.entry_seq()
                    == strip_rules(ded) && g.rules@ == map_of_entries(strip_rules(ded))
                    && g.start_symbol@ == (if rule_list.deep_view().len() > 0 {
                    rule_list.deep_view()[0].symbol
                } else {
                    Seq::<char>::empty()
                }),
                Err(errs) => errs.deep_view() == spec_rules_undef(ded, ded)
                    && errs.deep_view().len() > 0,
            }
        }),
{
    let start_symbol = if rule_list.len() > 0 {
        rule_list[0].symbol.clone()
    } else {
        String::new()
    };
    match ruleset_from_rules(rule_list) {
        Err(errs) => Err(errs),
        Ok(rules) => {
            proof {
                rules.lemma_view();
            }
            Ok(Grammar { start_symbol, rules })
        },
    }
}

/// One line handed to [`parse_lines`]: either the line's text, or the
/// reported reason a line could not be read.
#[derive(Debug, PartialEq)]
pub enum LineInput {
    /// A line read in full.
    Line(String),
    /// A line that could not be read; carries the reported reason.
    ReadError(String),
}

/// The mathematical value of a [`LineInput`].
pub enum LineInputModel {
    /// A line read in full.
    Line(Seq<char>),
    /// A line that could not be read; carries the reported reason.
    ReadError(Seq<char>),
}

impl DeepView for LineInput {
    type V = LineInputModel;

    open spec fn deep_view(&self) -> LineInputModel {
        match self {
            LineInput::Line(l) => LineInputModel::Line(l@),
            LineInput::ReadError(m) => LineInputModel::ReadError(m@),
        }
    }
}

/// The rules and the located errors that scanning `lines` yields, in
/// line order, `num` being the 1-based number of the first line. A
/// blank or `;` comment line yields nothing, a read failure a located
/// `FileError`, and any other line whatever lexing and parsing it
/// yields.
pub open spec fn spec_scan_lines(lines: Seq<LineInputModel>, file: Seq<char>, num: nat) -> (
    Seq<RuleModel>,
    Seq<ErrorModel<CompileErrorTypeModel>>,
)
    decreases lines.len(),
{
    if lines.len() == 0 {
        (Seq::empty(), Seq::empty())
    } else {
        let loc = LocationModel { file, line: num };
        let rest = spec_scan_lines(lines.drop_first(), file, num + 1);
        match lines[0] {
            LineInputModel::ReadError(msg) => (
                rest.0,
                seq![
                    ErrorModel { location: loc, error: CompileErrorTypeModel::FileError(msg) },
                ] + rest.1,
            ),
            LineInputModel::Line(l) => if !spec_is_rule_line(l) {
                rest
            } else {
                match spec_parse_lex_line(l, loc) {
                    Ok(rule) => (seq![rule] + rest.0, rest.1),
                    Err(e) => (rest.0, seq![e] + rest.1),
                }
            },
        }
    }
}

/// Compiles the lines of a grammar file, 1-based line numbers matching
/// their position. Blank and `;` comment lines are skipped; every other
/// line is lexed and parsed; read failures are collected like parse
/// errors, and the scan never stops early. With no errors, the rules
/// are assembled (last definition of a symbol winning), the first
/// rule's symbol becomes the start symbol, and the cross-reference
/// check must pass: either a fully verified grammar comes back, or the
/// full list of located errors, never both.
pub fn parse_lines(file: &String, lines: Vec<LineInput>) -> (r: FileResult<Grammar>)
    ensures
        ({
            let scan = spec_scan_lines(lines.deep_view(), file@, 1);
            let ded = spec_dedup(scan.0);
            match r {
                Ok(g) => scan.1.len() == 0 && spec_rules_undef(ded, ded).len() == 0 && g.wf()
                    && g.rules.entry_seq() == strip_rules(ded) && g.rules@ == map_of_entries(
                    strip_rules(ded),
                ) && g.start_symbol@ == (if scan.0.len() > 0 {
                    scan.0[0].symbol
                } else {
                    Seq::<char>::empty()
                }),
                Err(errs) => errs.deep_view().len() > 0 && errs.deep_view() == (if scan.1.len()
                    > 0 {
                    scan.1
                } else {
                    spec_rules_undef(ded, ded)
                }),
            }
        }),
{
    let ghost full = lines.deep_view();
    let mut pending = lines;
    let total = pending.len();
    let mut rules: Vec<Rule> = Vec::new();
    let mut errors: CompileErrors = Vec::new();
    let mut i: usize = 0;
    proof {
        assert(pending.deep_view() =~= full.skip(0));
        assert(rules.deep_view() =~= Seq::<RuleModel>::empty());
        assert(errors.deep_view() =~= Seq::<ErrorModel<CompileErrorTypeModel>>::empty());
    }
    while pending.len() > 0
        invariant
            0 <= i <= total,
            total == full.len(),
            i + pending@.len() == total,
            pending.deep_view() == full.skip(i as int),
            spec_scan_lines(full, file@, 1) == ({
                let rest = spec_scan_lines(full.skip(i as int), file@, (i + 1) as nat);
                (rules.deep_view() + rest.0, errors.deep_view() + rest.1)
            }),
        decreases pending@.len(),
    {
        let ghost rest_lines = pending.deep_view();
        let ghost prev_rules = rules.deep_view();
        let ghost prev_errors = errors.deep_view();
        let ghost next = spec_scan_lines(full.skip(i as int + 1), file@, (i + 2) as nat);
        let line = pending.remove(0);
        proof {
            assert(rest_lines[0] == line.deep_view());
            assert(rest_lines[0] == full.skip(i as int)[0]);
            assert(full.skip(i as int)[0] == full[i as int]);
            assert(pending.deep_view() =~= rest_lines.drop_first());
            assert(pending.deep_view() =~= full.skip(i as int + 1));
        }
        let location = Location { file: file.clone(), line: i + 1 };
        match line {
            LineInput::ReadError(msg) => {
                let err = Error { location, error: CompileErrorType::FileError(msg) };
                let ghost em = err.deep_view();
                errors.push(err);
                proof {
                    assert(errors.deep_view() =~= prev_errors.push(em));
                    assert(prev_errors.push(em) + next.1 =~= prev_errors + (seq![em] + next.1));
                }
            },
            LineInput::Line(l) => {
                if is_rule_line(&l) {
                    match parse_lex_line(l.as_str(), location) {
                        Ok(rule) => {
                            let ghost rm = rule.deep_view();
                            rules.push(rule);
                            proof {
                                assert(rules.deep_view() =~= prev_rules.push(rm));
                                assert(prev_rules.push(rm) + next.0 =~= prev_rules + (seq![rm]
                                    + next.0));
                            }
                        },
                        Err(err) => {
                            let ghost em = err.deep_view();
                            errors.push(err);
                            proof {
                                assert(errors.deep_view() =~= prev_errors.push(em));
                                assert(prev_errors.push(em) + next.1 =~= prev_errors + (seq![em]
                                    + next.1));
                            }
                        },
                    }
                }
            },
        }
        i = i + 1;
    }
    proof {
        assert(full.skip(i as int) =~= Seq::<LineInputModel>::empty());
        assert(rules.deep_view() + Seq::<RuleModel>::empty() =~= rules.deep_view());
        assert(errors.deep_view() + Seq::<ErrorModel<CompileErrorTypeModel>>::empty()
            =~= errors.deep_view());
    }
    if errors.len() > 0 {
        return Err(errors);
    }
    proof {
        assert(errors.deep_view().len() == errors@.len());
    }
    grammar_from_rules(rules)
}

/// A whole-file error: the reported reason, located at the file itself
/// rather than at any line.
pub fn io_error(message: String, file: String) -> (r: CompileError)
    ensures
        r.deep_view() == (ErrorModel {
            location: LocationModel { file: file@, line: 0 },
            error: CompileErrorTypeModel::FileError(message@),
        }),
{
    Error {
        location: Location { file, line: 0 },
        error: CompileErrorType::FileError(message),
    }
}

} // verus!

