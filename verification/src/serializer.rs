//! Re-serialization of compiled rules back into grammar text, and the
//! round-trip law: a serialized rule line lexes and parses back to the
//! rule it came from, so re-parsing a serialized grammar rebuilds the
//! same grammar.
//!
//! A rule is rendered as its tokens joined by single spaces: the
//! defined nonterminal, `=`, and the alternatives' symbols with a `|`
//! between consecutive alternatives; a terminal is double-quoted, a
//! nonterminal bare. The round trip holds for every grammar whose names
//! and terminals the lexer could itself have produced (see
//! [`serializable_entries`]); parsing guarantees those shapes, so
//! parse, serialize, re-parse rebuilds the parsed grammar
//! ([`theorem_parse_serialize_reparse`]) — with one exception: a rule
//! whose name opens with the `;` comment marker, which only a line
//! beginning with whitespace can produce, would serialize to a comment
//! line and be skipped on the way back.

use vstd::prelude::*;
use vstd::string::StrSliceExecFns;
use vstd::string::StringExecFns;

use crate::checker::{
    lemma_rule_index_of, rule_insert, rules_define, spec_alternative_undef, spec_dedup,
    spec_dedup_into, spec_rewrite_undef, spec_rules_undef, strip_rules,
};
use crate::error_handling::{ErrorModel, LocationModel};
use crate::grammar::{
    alternative_closed, entries_define, lemma_map_of_entries_at, lemma_map_of_entries_dom,
    map_of_entries, rewrite_closed, rules_closed, symbol_closed, AlternativeModel, EntryModel,
    Rewrite, RewriteModel, Symbol, SymbolModel,
};
use crate::lexer::{
    is_space, lemma_lex_from_skip, lemma_scan_quote_at, lemma_scan_space_at, spec_lex, Token,
    TokenModel,
};
use crate::parser::{
    spec_is_rule_line, spec_scan_lines, CompileErrorTypeModel, LineInputModel, RuleModel,
};

verus! {

/// The text of one token: `=`, `|`, the bare name, or the quoted text.
pub open spec fn spec_render_token(t: TokenModel) -> Seq<char> {
    match t {
        TokenModel::Equals => seq!['='],
        TokenModel::Or => seq!['|'],
        TokenModel::Nonterminal(n) => n,
        TokenModel::Terminal(x) => seq!['"'] + x + seq!['"'],
    }
}

/// The text of a token sequence: the tokens' texts joined by single
/// spaces.
pub open spec fn spec_render_tokens(ts: Seq<TokenModel>) -> Seq<char>
    decreases ts.len(),
{
    if ts.len() == 0 {
        Seq::empty()
    } else if ts.len() == 1 {
        spec_render_token(ts[0])
    } else {
        spec_render_token(ts[0]) + seq![' '] + spec_render_tokens(ts.drop_first())
    }
}

/// A nonterminal name the lexer could have produced: non-empty, free of
/// whitespace, and not opening with `=`, `|` or `"`.
pub open spec fn lexable_name(n: Seq<char>) -> bool {
    &&& n.len() > 0
    &&& (forall|i: int| 0 <= i < n.len() ==> !is_space(#[trigger] n[i]))
    &&& n[0] != '='
    &&& n[0] != '|'
    &&& n[0] != '"'
}

/// A terminal text the lexer could have produced: free of `"`.
pub open spec fn lexable_terminal(t: Seq<char>) -> bool {
    forall|i: int| 0 <= i < t.len() ==> (#[trigger] t[i]) != '"'
}

/// A token whose rendered text lexes back to itself.
pub open spec fn lexable_token(t: TokenModel) -> bool {
    match t {
        TokenModel::Equals => true,
        TokenModel::Or => true,
        TokenModel::Nonterminal(n) => lexable_name(n),
        TokenModel::Terminal(x) => lexable_terminal(x),
    }
}

/// Tokens whose rendered text lexes back to them.
pub open spec fn lexable_tokens(ts: Seq<TokenModel>) -> bool {
    forall|i: int| 0 <= i < ts.len() ==> lexable_token(#[trigger] ts[i])
}

/// Lexing inverts rendering: the rendered text of lexable tokens lexes
/// back to exactly those tokens.
pub proof fn lemma_lex_render(ts: Seq<TokenModel>)
    requires
        lexable_tokens(ts),
    ensures
        spec_lex(spec_render_tokens(ts)) == Some(ts),
    decreases ts.len(),
{
    let s = spec_render_tokens(ts);
    if ts.len() == 0 {
        assert(spec_lex(s) == Some(Seq::<TokenModel>::empty()));
        assert(Seq::<TokenModel>::empty() =~= ts);
    } else {
        let t0 = ts[0];
        let rest = ts.drop_first();
        let head = spec_render_token(t0);
        let tail = spec_render_tokens(rest);
        // the whole line: the head token's text, then (if more tokens
        // follow) a space and the rest's text
        if ts.len() == 1 {
            assert(s == head);
        } else {
            assert(s == head + seq![' '] + tail);
        }
        assert forall|i: int| 0 <= i < rest.len() implies lexable_token(#[trigger] rest[i]) by {
            assert(rest[i] == ts[i + 1]);
            assert(lexable_token(ts[i + 1]));
        }
        lemma_lex_render(rest);
        match t0 {
            TokenModel::Equals => {
                assert(s[0] == '=');
                if ts.len() == 1 {
                    assert(s.len() == 1);
                    assert(spec_lex_from_is_empty_tail(s, 1));
                    assert(spec_lex(s) == Some(seq![TokenModel::Equals]));
                    assert(seq![TokenModel::Equals] =~= ts);
                } else {
                    assert(s[1] == ' ');
                    assert(is_space(' '));
                    assert(s.skip(2) =~= tail);
                    lemma_lex_from_skip(s, 2, 0);
                    assert(crate::lexer::spec_lex_from(s, 2) == Some(rest));
                    assert(crate::lexer::spec_lex_from(s, 1) == Some(rest));
                    assert(spec_lex(s) == Some(seq![TokenModel::Equals] + rest));
                    assert(seq![TokenModel::Equals] + rest =~= ts);
                }
            },
            TokenModel::Or => {
                assert(s[0] == '|');
                if ts.len() == 1 {
                    assert(s.len() == 1);
                    assert(spec_lex_from_is_empty_tail(s, 1));
                    assert(spec_lex(s) == Some(seq![TokenModel::Or]));
                    assert(seq![TokenModel::Or] =~= ts);
                } else {
                    assert(s[1] == ' ');
                    assert(is_space(' '));
                    assert(s.skip(2) =~= tail);
                    lemma_lex_from_skip(s, 2, 0);
                    assert(crate::lexer::spec_lex_from(s, 2) == Some(rest));
                    assert(crate::lexer::spec_lex_from(s, 1) == Some(rest));
                    assert(spec_lex(s) == Some(seq![TokenModel::Or] + rest));
                    assert(seq![TokenModel::Or] + rest =~= ts);
                }
            },
            TokenModel::Terminal(x) => {
                let j = 1 + x.len() as int;
                assert(s[0] == '"');
                assert(head.len() == x.len() + 2);
                assert(forall|k: int| 1 <= k < j ==> s[k] == x[k - 1] && (#[trigger] s[k]) != '"');
                assert(s[j] == '"');
                lemma_scan_quote_at(s, 1, j);
                assert(s.subrange(1, j) =~= x);
                if ts.len() == 1 {
                    assert(s.len() == j + 1);
                    assert(spec_lex_from_is_empty_tail(s, j + 1));
                    assert(spec_lex(s) == Some(seq![TokenModel::Terminal(x)]));
                    assert(seq![TokenModel::Terminal(x)] =~= ts);
                } else {
                    assert(s[j + 1] == ' ');
                    assert(is_space(' '));
                    assert(s.skip(j + 2) =~= tail);
                    lemma_lex_from_skip(s, j + 2, 0);
                    assert(crate::lexer::spec_lex_from(s, j + 2) == Some(rest));
                    assert(crate::lexer::spec_lex_from(s, j + 1) == Some(rest));
                    assert(spec_lex(s) == Some(seq![TokenModel::Terminal(x)] + rest));
                    assert(seq![TokenModel::Terminal(x)] + rest =~= ts);
                }
            },
            TokenModel::Nonterminal(n) => {
                let j = n.len() as int;
                assert(s[0] == n[0]);
                assert(s[0] != '=' && s[0] != '|' && s[0] != '"' && !is_space(s[0]));
                assert(forall|k: int| 0 <= k < j ==> s[k] == n[k] && !is_space(#[trigger] s[k]));
                if ts.len() == 1 {
                    assert(s.len() == j);
                    lemma_scan_space_at(s, 0, j);
                    assert(s.subrange(0, j) =~= n);
                    assert(spec_lex_from_is_empty_tail(s, j));
                    assert(spec_lex(s) == Some(seq![TokenModel::Nonterminal(n)]));
                    assert(seq![TokenModel::Nonterminal(n)] =~= ts);
                } else {
                    assert(s[j] == ' ');
                    assert(is_space(' '));
                    lemma_scan_space_at(s, 0, j);
                    assert(s.subrange(0, j) =~= n);
                    assert(s.skip(j + 1) =~= tail);
                    lemma_lex_from_skip(s, j + 1, 0);
                    assert(crate::lexer::spec_lex_from(s, j + 1) == Some(rest));
                    assert(spec_lex(s) == Some(seq![TokenModel::Nonterminal(n)] + rest));
                    assert(seq![TokenModel::Nonterminal(n)] + rest =~= ts);
                }
            },
        }
    }
}

/// Past the end of the line there is nothing left to lex.
spec fn spec_lex_from_is_empty_tail(s: Seq<char>, i: int) -> bool {
    crate::lexer::spec_lex_from(s, i) == Some(Seq::<TokenModel>::empty())
}

/// The token denoting one symbol: the bare name or the quoted text.
pub open spec fn sym_token(s: SymbolModel) -> TokenModel {
    match s {
        SymbolModel::Nonterminal(n) => TokenModel::Nonterminal(n),
        SymbolModel::Terminal(t) => TokenModel::Terminal(t),
    }
}

/// The tokens of one alternative: its symbols, in order.
pub open spec fn alt_tokens(alt: AlternativeModel) -> Seq<TokenModel> {
    Seq::new(alt.len(), |i: int| sym_token(alt[i]))
}

/// The tokens of a rewrite: the alternatives' tokens with a `|` between
/// consecutive alternatives.
pub open spec fn rewrite_tokens(rw: RewriteModel) -> Seq<TokenModel>
    decreases rw.len(),
{
    if rw.len() == 0 {
        Seq::empty()
    } else if rw.len() == 1 {
        alt_tokens(rw[0])
    } else {
        alt_tokens(rw[0]) + seq![TokenModel::Or] + rewrite_tokens(rw.drop_first())
    }
}

/// The tokens of a whole rule line: the defined nonterminal, `=`, and
/// the rewrite's tokens.
pub open spec fn rule_tokens(symbol: Seq<char>, rw: RewriteModel) -> Seq<TokenModel> {
    seq![TokenModel::Nonterminal(symbol), TokenModel::Equals] + rewrite_tokens(rw)
}

/// Parsing inverts the token list of an alternative.
proof fn lemma_parse_alt_tokens(alt: AlternativeModel)
    ensures
        crate::parser::spec_parse_alternative(alt_tokens(alt)) == Ok::<
            AlternativeModel,
            crate::parser::CompileErrorTypeModel,
        >(alt),
    decreases alt.len(),
{
    let ts = alt_tokens(alt);
    if alt.len() == 0 {
        assert(Seq::<SymbolModel>::empty() =~= alt);
    } else {
        assert(ts[0] == sym_token(alt[0]));
        assert(ts.drop_first() =~= alt_tokens(alt.drop_first()));
        lemma_parse_alt_tokens(alt.drop_first());
        match alt[0] {
            SymbolModel::Nonterminal(n) => {
                assert(seq![SymbolModel::Nonterminal(n)] + alt.drop_first() =~= alt);
            },
            SymbolModel::Terminal(t) => {
                assert(seq![SymbolModel::Terminal(t)] + alt.drop_first() =~= alt);
            },
        }
    }
}

/// Parsing inverts the token list of a rewrite with at least one
/// alternative (splitting can never yield fewer).
proof fn lemma_parse_rewrite_tokens(rw: RewriteModel)
    requires
        rw.len() >= 1,
    ensures
        crate::parser::spec_parse_rewrite(rewrite_tokens(rw)) == Ok::<
            RewriteModel,
            crate::parser::CompileErrorTypeModel,
        >(rw),
    decreases rw.len(),
{
    let ts = rewrite_tokens(rw);
    let a = alt_tokens(rw[0]);
    if rw.len() == 1 {
        assert(ts == a);
        assert forall|k: int| 0 <= k < ts.len() implies !((#[trigger] ts[k]) is Or) by {
            assert(ts[k] == sym_token(rw[0][k]));
        }
        crate::parser::lemma_scan_or_at(ts, 0, ts.len() as int);
        lemma_parse_alt_tokens(rw[0]);
        assert(seq![rw[0]] =~= rw);
    } else {
        let k = a.len() as int;
        assert(ts == a + seq![TokenModel::Or] + rewrite_tokens(rw.drop_first()));
        assert forall|j: int| 0 <= j < k implies !((#[trigger] ts[j]) is Or) by {
            assert(ts[j] == a[j]);
            assert(a[j] == sym_token(rw[0][j]));
        }
        assert(ts[k] is Or);
        crate::parser::lemma_scan_or_at(ts, 0, k);
        assert(ts.take(k) =~= a);
        lemma_parse_alt_tokens(rw[0]);
        assert(ts.skip(k + 1) =~= rewrite_tokens(rw.drop_first()));
        lemma_parse_rewrite_tokens(rw.drop_first());
        assert(seq![rw[0]] + rw.drop_first() =~= rw);
    }
}

/// Parsing inverts the token list of a whole rule line.
proof fn lemma_parse_rule_tokens(symbol: Seq<char>, rw: RewriteModel, loc: LocationModel)
    requires
        rw.len() >= 1,
    ensures
        crate::parser::spec_parse_line(rule_tokens(symbol, rw), loc) == Ok::<
            RuleModel,
            crate::parser::CompileErrorTypeModel,
        >(RuleModel { symbol, rewrite: rw, location: loc }),
{
    let ts = rule_tokens(symbol, rw);
    assert(ts[0] == TokenModel::Nonterminal(symbol));
    assert(ts[1] == TokenModel::Equals);
    assert(ts.skip(2) =~= rewrite_tokens(rw));
    lemma_parse_rewrite_tokens(rw);
}

/// A symbol whose rendered token lexes back to itself.
pub open spec fn serializable_symbol(s: SymbolModel) -> bool {
    match s {
        SymbolModel::Nonterminal(n) => lexable_name(n),
        SymbolModel::Terminal(t) => lexable_terminal(t),
    }
}

/// An alternative of symbols that all render and lex back.
pub open spec fn serializable_alternative(alt: AlternativeModel) -> bool {
    forall|k: int| 0 <= k < alt.len() ==> serializable_symbol(#[trigger] alt[k])
}

/// A rewrite whose every alternative renders and lexes back.
pub open spec fn serializable_rewrite(rw: RewriteModel) -> bool {
    forall|i: int| 0 <= i < rw.len() ==> serializable_alternative(#[trigger] rw[i])
}

/// The tokens of a serializable rewrite are all lexable.
proof fn lemma_rewrite_tokens_lexable(rw: RewriteModel)
    requires
        serializable_rewrite(rw),
    ensures
        lexable_tokens(rewrite_tokens(rw)),
    decreases rw.len(),
{
    let ts = rewrite_tokens(rw);
    if rw.len() == 0 {
    } else if rw.len() == 1 {
        assert forall|k: int| 0 <= k < ts.len() implies lexable_token(#[trigger] ts[k]) by {
            assert(ts[k] == sym_token(rw[0][k]));
            assert(serializable_symbol(rw[0][k]));
        }
    } else {
        let a = alt_tokens(rw[0]);
        let k0 = a.len() as int;
        assert forall|i: int| 0 <= i < rw.drop_first().len() implies serializable_alternative(
            #[trigger] rw.drop_first()[i],
        ) by {
            assert(rw.drop_first()[i] == rw[i + 1]);
        }
        lemma_rewrite_tokens_lexable(rw.drop_first());
        assert forall|k: int| 0 <= k < ts.len() implies lexable_token(#[trigger] ts[k]) by {
            if k < k0 {
                assert(ts[k] == a[k]);
                assert(a[k] == sym_token(rw[0][k]));
                assert(serializable_symbol(rw[0][k]));
            } else if k == k0 {
                assert(ts[k] is Or);
            } else {
                assert(ts[k] == rewrite_tokens(rw.drop_first())[k - k0 - 1]);
            }
        }
    }
}

/// One serialized rule line lexes and parses back to the rule it came
/// from.
pub proof fn lemma_line_round_trip(symbol: Seq<char>, rw: RewriteModel, loc: LocationModel)
    requires
        lexable_name(symbol),
        rw.len() >= 1,
        serializable_rewrite(rw),
    ensures
        crate::parser::spec_parse_lex_line(spec_render_tokens(rule_tokens(symbol, rw)), loc)
            == Ok::<RuleModel, crate::error_handling::ErrorModel<
            crate::parser::CompileErrorTypeModel,
        >>(RuleModel { symbol, rewrite: rw, location: loc }),
{
    let ts = rule_tokens(symbol, rw);
    lemma_rewrite_tokens_lexable(rw);
    assert forall|k: int| 0 <= k < ts.len() implies lexable_token(#[trigger] ts[k]) by {
        if k >= 2 {
            assert(ts[k] == rewrite_tokens(rw)[k - 2]);
        }
    }
    lemma_lex_render(ts);
    lemma_parse_rule_tokens(symbol, rw, loc);
}

/// The serialized line of one rule-table entry.
pub open spec fn spec_render_entry(e: EntryModel) -> Seq<char> {
    spec_render_tokens(rule_tokens(e.0, e.1))
}

/// The serialized lines of a rule table, one per entry, in entry order.
pub open spec fn spec_render_entries(es: Seq<EntryModel>) -> Seq<LineInputModel> {
    Seq::new(es.len(), |i: int| LineInputModel::Line(spec_render_entry(es[i])))
}

/// A rule-table entry whose serialized line parses back to it: its name
/// is lexable and does not open with the `;` comment marker, and its
/// rewrite has at least one alternative, all of lexable symbols. Every
/// entry a parse run builds has this shape, except that a parsed name
/// can open with `;` when its line began with whitespace.
pub open spec fn serializable_entry(e: EntryModel) -> bool {
    &&& lexable_name(e.0)
    &&& e.0[0] != ';'
    &&& e.1.len() >= 1
    &&& serializable_rewrite(e.1)
}

/// A rule table whose serialized lines parse back to it: every entry
/// serializable, no two entries sharing a name.
pub open spec fn serializable_entries(es: Seq<EntryModel>) -> bool {
    &&& forall|i: int| 0 <= i < es.len() ==> serializable_entry(#[trigger] es[i])
    &&& forall|i: int, j: int| 0 <= i < j < es.len() ==> es[i].0 != es[j].0
}

/// Scanning the serialized lines of serializable entries yields exactly
/// their rules, one per line in order, and no errors.
proof fn lemma_scan_render(es: Seq<EntryModel>, file: Seq<char>, num: nat)
    requires
        forall|i: int| 0 <= i < es.len() ==> serializable_entry(#[trigger] es[i]),
    ensures
        ({
            let scan = spec_scan_lines(spec_render_entries(es), file, num);
            &&& scan.1 == Seq::<ErrorModel<CompileErrorTypeModel>>::empty()
            &&& scan.0.len() == es.len()
            &&& forall|i: int|
                0 <= i < es.len() ==> scan.0[i] == (RuleModel {
                    symbol: es[i].0,
                    rewrite: es[i].1,
                    location: LocationModel { file, line: (num + i) as nat },
                })
        }),
    decreases es.len(),
{
    let lines = spec_render_entries(es);
    if es.len() > 0 {
        assert(lines.drop_first() =~= spec_render_entries(es.drop_first()));
        assert forall|i: int| 0 <= i < es.drop_first().len() implies serializable_entry(
            #[trigger] es.drop_first()[i],
        ) by {
            assert(es.drop_first()[i] == es[i + 1]);
        }
        lemma_scan_render(es.drop_first(), file, num + 1);
        let sym = es[0].0;
        let rw = es[0].1;
        let l = spec_render_entry(es[0]);
        let ts = rule_tokens(sym, rw);
        let loc = LocationModel { file, line: num };
        assert(ts[0] == TokenModel::Nonterminal(sym));
        assert(ts.len() >= 2);
        assert(l == spec_render_token(ts[0]) + seq![' '] + spec_render_tokens(ts.drop_first()));
        assert(l[0] == sym[0]);
        assert(spec_is_rule_line(l));
        lemma_line_round_trip(sym, rw, loc);
        let rule0 = RuleModel { symbol: sym, rewrite: rw, location: loc };
        let rest = spec_scan_lines(lines.drop_first(), file, num + 1);
        let scan = spec_scan_lines(lines, file, num);
        assert(lines[0] == LineInputModel::Line(l));
        assert(scan.0 == seq![rule0] + rest.0);
        assert(scan.1 == rest.1);
        assert forall|i: int|
            0 <= i < es.len() implies scan.0[i] == (RuleModel {
            symbol: es[i].0,
            rewrite: es[i].1,
            location: LocationModel { file, line: (num + i) as nat },
        }) by {
            if i > 0 {
                assert(scan.0[i] == rest.0[i - 1]);
                assert(es.drop_first()[i - 1] == es[i]);
            }
        }
    }
}

/// Assembling rules with pairwise distinct symbols changes nothing: no
/// later definition overrides an earlier one.
proof fn lemma_dedup_unique_into(acc: Seq<RuleModel>, rest: Seq<RuleModel>)
    requires
        forall|i: int, j: int|
            0 <= i < j < (acc + rest).len() ==> (acc + rest)[i].symbol != (acc + rest)[j].symbol,
    ensures
        spec_dedup_into(acc, rest) == acc + rest,
    decreases rest.len(),
{
    if rest.len() == 0 {
        assert(acc + rest =~= acc);
    } else {
        let r0 = rest[0];
        if rules_define(acc, r0.symbol) {
            let i = choose|i: int| 0 <= i < acc.len() && acc[i].symbol == r0.symbol;
            assert((acc + rest)[i].symbol == (acc + rest)[acc.len() as int].symbol);
            assert(false);
        }
        assert(rule_insert(acc, r0) == acc.push(r0));
        assert(acc.push(r0) + rest.drop_first() =~= acc + rest);
        lemma_dedup_unique_into(acc.push(r0), rest.drop_first());
    }
}

/// A rule table with pairwise distinct symbols assembles to itself.
pub proof fn lemma_dedup_unique(rs: Seq<RuleModel>)
    requires
        forall|i: int, j: int| 0 <= i < j < rs.len() ==> rs[i].symbol != rs[j].symbol,
    ensures
        spec_dedup(rs) == rs,
{
    assert(Seq::<RuleModel>::empty() + rs =~= rs);
    lemma_dedup_unique_into(Seq::empty(), rs);
}

/// The names that some rule of `rs` defines.
pub open spec fn rules_dom(rs: Seq<RuleModel>) -> Set<Seq<char>> {
    Set::new(|n: Seq<char>| rules_define(rs, n))
}

/// An alternative whose references are all defined contributes no
/// undefined-nonterminal error.
proof fn lemma_defined_alt_no_undef(alt: AlternativeModel, loc: LocationModel, rs: Seq<RuleModel>)
    requires
        alternative_closed(alt, rules_dom(rs)),
    ensures
        spec_alternative_undef(alt, loc, rs).len() == 0,
    decreases alt.len(),
{
    if alt.len() > 0 {
        assert(symbol_closed(alt[0], rules_dom(rs)));
        match alt[0] {
            SymbolModel::Nonterminal(n) => {
                assert(rules_dom(rs).contains(n));
                assert(rules_define(rs, n));
            },
            SymbolModel::Terminal(_) => {
            },
        }
        assert forall|k: int| 0 <= k < alt.drop_first().len() implies symbol_closed(
            #[trigger] alt.drop_first()[k],
            rules_dom(rs),
        ) by {
            assert(alt.drop_first()[k] == alt[k + 1]);
        }
        lemma_defined_alt_no_undef(alt.drop_first(), loc, rs);
    }
}

/// A rewrite whose references are all defined contributes no
/// undefined-nonterminal error.
proof fn lemma_defined_rewrite_no_undef(rw: RewriteModel, loc: LocationModel, rs: Seq<RuleModel>)
    requires
        rewrite_closed(rw, rules_dom(rs)),
    ensures
        spec_rewrite_undef(rw, loc, rs).len() == 0,
    decreases rw.len(),
{
    if rw.len() > 0 {
        assert(alternative_closed(rw[0], rules_dom(rs)));
        lemma_defined_alt_no_undef(rw[0], loc, rs);
        assert forall|i: int| 0 <= i < rw.drop_first().len() implies alternative_closed(
            #[trigger] rw.drop_first()[i],
            rules_dom(rs),
        ) by {
            assert(rw.drop_first()[i] == rw[i + 1]);
        }
        lemma_defined_rewrite_no_undef(rw.drop_first(), loc, rs);
    }
}

/// A rule table whose references are all defined passes the
/// cross-reference check with no errors at all.
proof fn lemma_defined_rules_no_undef(todo: Seq<RuleModel>, rs: Seq<RuleModel>)
    requires
        forall|i: int|
            0 <= i < todo.len() ==> rewrite_closed((#[trigger] todo[i]).rewrite, rules_dom(rs)),
    ensures
        spec_rules_undef(todo, rs).len() == 0,
    decreases todo.len(),
{
    if todo.len() > 0 {
        lemma_defined_rewrite_no_undef(todo[0].rewrite, todo[0].location, rs);
        assert forall|i: int| 0 <= i < todo.drop_first().len() implies rewrite_closed(
            (#[trigger] todo.drop_first()[i]).rewrite,
            rules_dom(rs),
        ) by {
            assert(todo.drop_first()[i] == todo[i + 1]);
        }
        lemma_defined_rules_no_undef(todo.drop_first(), rs);
    }
}

/// A rewrite closed under one set of names is closed under any larger
/// one.
proof fn lemma_rewrite_closed_mono(rw: RewriteModel, d1: Set<Seq<char>>, d2: Set<Seq<char>>)
    requires
        rewrite_closed(rw, d1),
        forall|n: Seq<char>| d1.contains(n) ==> d2.contains(n),
    ensures
        rewrite_closed(rw, d2),
{
    assert forall|i: int| 0 <= i < rw.len() implies alternative_closed(#[trigger] rw[i], d2) by {
        assert(alternative_closed(rw[i], d1));
        assert forall|k: int| 0 <= k < rw[i].len() implies symbol_closed(
            #[trigger] rw[i][k],
            d2,
        ) by {
            assert(symbol_closed(rw[i][k], d1));
            match rw[i][k] {
                SymbolModel::Nonterminal(n) => {
                    assert(d1.contains(n));
                },
                SymbolModel::Terminal(_) => {
                },
            }
        }
    }
}

/// A lexable token in front of lexable tokens: all lexable.
proof fn lemma_lexable_cons(t: TokenModel, ts: Seq<TokenModel>)
    requires
        lexable_token(t),
        lexable_tokens(ts),
    ensures
        lexable_tokens(seq![t] + ts),
{
    assert forall|k: int| 0 <= k < (seq![t] + ts).len() implies lexable_token(
        #[trigger] (seq![t] + ts)[k],
    ) by {
        if k > 0 {
            assert((seq![t] + ts)[k] == ts[k - 1]);
        }
    }
}

/// Whatever the lexer yields is lexable: names are non-empty, free of
/// whitespace and do not open with `=`, `|` or `"`; terminal texts are
/// free of `"`.
pub proof fn lemma_lex_tokens_lexable(s: Seq<char>, i: int)
    ensures
        (crate::lexer::spec_lex_from(s, i) matches Some(ts) ==> lexable_tokens(ts)),
    decreases s.len() - i,
{
    if 0 <= i < s.len() {
        let c = s[i];
        if c == '=' {
            lemma_lex_tokens_lexable(s, i + 1);
            if crate::lexer::spec_lex_from(s, i + 1) is Some {
                lemma_lexable_cons(TokenModel::Equals, crate::lexer::spec_lex_from(s, i + 1)->Some_0);
            }
        } else if c == '|' {
            lemma_lex_tokens_lexable(s, i + 1);
            if crate::lexer::spec_lex_from(s, i + 1) is Some {
                lemma_lexable_cons(TokenModel::Or, crate::lexer::spec_lex_from(s, i + 1)->Some_0);
            }
        } else if c == '"' {
            crate::lexer::lemma_scan_quote(s, i + 1);
            let j = crate::lexer::scan_quote(s, i + 1);
            if j < s.len() {
                lemma_lex_tokens_lexable(s, j + 1);
                let x = s.subrange(i + 1, j);
                assert forall|k: int| 0 <= k < x.len() implies (#[trigger] x[k]) != '"' by {
                    assert(x[k] == s[i + 1 + k]);
                }
                if crate::lexer::spec_lex_from(s, j + 1) is Some {
                    lemma_lexable_cons(TokenModel::Terminal(x), crate::lexer::spec_lex_from(s, j + 1)->Some_0);
                }
            }
        } else if is_space(c) {
            lemma_lex_tokens_lexable(s, i + 1);
        } else {
            crate::lexer::lemma_scan_space(s, i);
            let j = crate::lexer::scan_space(s, i);
            let next = if j < s.len() {
                j + 1
            } else {
                j
            };
            lemma_lex_tokens_lexable(s, next);
            let n = s.subrange(i, j);
            assert(n[0] == s[i]);
            assert forall|k: int| 0 <= k < n.len() implies !is_space(#[trigger] n[k]) by {
                assert(n[k] == s[i + k]);
            }
            assert(lexable_name(n));
            if crate::lexer::spec_lex_from(s, next) is Some {
                lemma_lexable_cons(TokenModel::Nonterminal(n), crate::lexer::spec_lex_from(s, next)->Some_0);
            }
        }
    }
}

/// A suffix or a prefix of lexable tokens is lexable.
proof fn lemma_lexable_parts(ts: Seq<TokenModel>, a: int, b: int)
    requires
        lexable_tokens(ts),
        0 <= a <= b <= ts.len(),
    ensures
        lexable_tokens(ts.subrange(a, b)),
{
    assert forall|k: int| 0 <= k < b - a implies lexable_token(
        #[trigger] ts.subrange(a, b)[k],
    ) by {
        assert(ts.subrange(a, b)[k] == ts[a + k]);
    }
}

/// Whatever the alternative parser accepts from lexable tokens is made
/// of serializable symbols.
proof fn lemma_parse_alt_serializable(ts: Seq<TokenModel>)
    requires
        lexable_tokens(ts),
    ensures
        (crate::parser::spec_parse_alternative(ts) matches Ok(alt) ==> serializable_alternative(
            alt,
        )),
    decreases ts.len(),
{
    if ts.len() > 0 {
        assert(ts.drop_first() =~= ts.subrange(1, ts.len() as int));
        lemma_lexable_parts(ts, 1, ts.len() as int);
        lemma_parse_alt_serializable(ts.drop_first());
        if crate::parser::spec_parse_alternative(ts) is Ok {
            let alt = crate::parser::spec_parse_alternative(ts)->Ok_0;
            let rest = crate::parser::spec_parse_alternative(ts.drop_first())->Ok_0;
            let m = match ts[0] {
                TokenModel::Nonterminal(n) => SymbolModel::Nonterminal(n),
                TokenModel::Terminal(t) => SymbolModel::Terminal(t),
                _ => SymbolModel::Terminal(Seq::empty()),
            };
            assert(lexable_token(ts[0]));
            assert(serializable_symbol(m));
            assert(alt == seq![m] + rest);
            assert forall|k: int| 0 <= k < alt.len() implies serializable_symbol(
                #[trigger] alt[k],
            ) by {
                if k > 0 {
                    assert(alt[k] == rest[k - 1]);
                }
            }
        }
    }
}

/// Whatever the rewrite parser accepts from lexable tokens has at least
/// one alternative, all serializable.
proof fn lemma_parse_rewrite_serializable(ts: Seq<TokenModel>)
    requires
        lexable_tokens(ts),
    ensures
        (crate::parser::spec_parse_rewrite(ts) matches Ok(rw) ==> serializable_rewrite(rw)
            && rw.len() >= 1),
    decreases ts.len(),
{
    crate::parser::lemma_scan_or(ts, 0);
    let k = crate::parser::scan_or(ts, 0);
    if k >= ts.len() {
        lemma_parse_alt_serializable(ts);
    } else {
        assert(ts.take(k) =~= ts.subrange(0, k));
        lemma_lexable_parts(ts, 0, k);
        lemma_parse_alt_serializable(ts.take(k));
        assert(ts.skip(k + 1) =~= ts.subrange(k + 1, ts.len() as int));
        lemma_lexable_parts(ts, k + 1, ts.len() as int);
        lemma_parse_rewrite_serializable(ts.skip(k + 1));
        if crate::parser::spec_parse_rewrite(ts) is Ok {
            let rw = crate::parser::spec_parse_rewrite(ts)->Ok_0;
            let alt = crate::parser::spec_parse_alternative(ts.take(k))->Ok_0;
            let rest = crate::parser::spec_parse_rewrite(ts.skip(k + 1))->Ok_0;
            assert(rw == seq![alt] + rest);
            assert forall|i: int| 0 <= i < rw.len() implies serializable_alternative(
                #[trigger] rw[i],
            ) by {
                if i > 0 {
                    assert(rw[i] == rest[i - 1]);
                }
            }
        }
    }
}

/// Whatever rule a line parses to is serializable, except that its name
/// can open with the `;` comment marker when the line began with
/// whitespace.
proof fn lemma_parse_line_serializable(ts: Seq<TokenModel>, loc: LocationModel)
    requires
        lexable_tokens(ts),
    ensures
        (crate::parser::spec_parse_line(ts, loc) matches Ok(rule) ==> lexable_name(rule.symbol)
            && rule.rewrite.len() >= 1 && serializable_rewrite(rule.rewrite)),
{
    if crate::parser::spec_parse_line(ts, loc) is Ok {
        assert(lexable_token(ts[0]));
        assert(ts.skip(2) =~= ts.subrange(2, ts.len() as int));
        lemma_lexable_parts(ts, 2, ts.len() as int);
        lemma_parse_rewrite_serializable(ts.skip(2));
    }
}

/// One parsed rule, short of the comment-marker condition on its name.
pub open spec fn serializable_rule(r: RuleModel) -> bool {
    &&& lexable_name(r.symbol)
    &&& r.rewrite.len() >= 1
    &&& serializable_rewrite(r.rewrite)
}

/// Every rule a scan of a file yields is serializable.
proof fn lemma_scan_rules_serializable(lines: Seq<LineInputModel>, file: Seq<char>, num: nat)
    ensures
        ({
            let scan = spec_scan_lines(lines, file, num);
            forall|i: int| 0 <= i < scan.0.len() ==> serializable_rule(#[trigger] scan.0[i])
        }),
    decreases lines.len(),
{
    if lines.len() > 0 {
        lemma_scan_rules_serializable(lines.drop_first(), file, num + 1);
        let rest = spec_scan_lines(lines.drop_first(), file, num + 1);
        let scan = spec_scan_lines(lines, file, num);
        let loc = LocationModel { file, line: num };
        match lines[0] {
            LineInputModel::ReadError(_) => {
            },
            LineInputModel::Line(l) => {
                if spec_is_rule_line(l) {
                    if crate::parser::spec_parse_lex_line(l, loc) is Ok {
                        let rule = crate::parser::spec_parse_lex_line(l, loc)->Ok_0;
                        let ts = spec_lex(l)->Some_0;
                        lemma_lex_tokens_lexable(l, 0);
                        lemma_parse_line_serializable(ts, loc);
                        assert(scan.0 == seq![rule] + rest.0);
                        assert forall|i: int| 0 <= i < scan.0.len() implies serializable_rule(
                            #[trigger] scan.0[i],
                        ) by {
                            if i > 0 {
                                assert(scan.0[i] == rest.0[i - 1]);
                            }
                        }
                    }
                }
            },
        }
    }
}

/// Assembling rules keeps every rule serializable and makes the symbols
/// pairwise distinct.
proof fn lemma_dedup_serializable(acc: Seq<RuleModel>, rest: Seq<RuleModel>)
    requires
        forall|i: int| 0 <= i < acc.len() ==> serializable_rule(#[trigger] acc[i]),
        forall|i: int| 0 <= i < rest.len() ==> serializable_rule(#[trigger] rest[i]),
        forall|i: int, j: int| 0 <= i < j < acc.len() ==> acc[i].symbol != acc[j].symbol,
    ensures
        ({
            let d = spec_dedup_into(acc, rest);
            &&& forall|i: int| 0 <= i < d.len() ==> serializable_rule(#[trigger] d[i])
            &&& forall|i: int, j: int| 0 <= i < j < d.len() ==> d[i].symbol != d[j].symbol
        }),
    decreases rest.len(),
{
    if rest.len() > 0 {
        let r0 = rest[0];
        let acc2 = rule_insert(acc, r0);
        lemma_rule_index_of(acc, r0.symbol);
        assert(serializable_rule(r0));
        assert(spec_dedup_into(acc, rest) == spec_dedup_into(acc2, rest.drop_first()));
        assert forall|i: int| 0 <= i < acc2.len() implies serializable_rule(
            #[trigger] acc2[i],
        ) by {
            if rules_define(acc, r0.symbol) {
                let at = crate::checker::rule_index_of(acc, r0.symbol);
                if i != at {
                    assert(acc2[i] == acc[i]);
                }
            } else {
                if i < acc.len() {
                    assert(acc2[i] == acc[i]);
                }
            }
        }
        assert forall|i: int, j: int| 0 <= i < j < acc2.len() implies acc2[i].symbol
            != acc2[j].symbol by {
            if rules_define(acc, r0.symbol) {
                let at = crate::checker::rule_index_of(acc, r0.symbol);
                assert(acc[at].symbol == r0.symbol);
                assert(acc2[i].symbol == acc[i].symbol);
                assert(acc2[j].symbol == acc[j].symbol);
            } else {
                if j < acc.len() {
                    assert(acc2[i] == acc[i] && acc2[j] == acc[j]);
                } else {
                    assert(acc2[j] == r0);
                    assert(acc2[i] == acc[i]);
                    assert(!rules_define(acc, r0.symbol));
                    if acc[i].symbol == r0.symbol {
                        assert(rules_define(acc, r0.symbol));
                    }
                }
            }
        }
        assert forall|i: int| 0 <= i < rest.drop_first().len() implies serializable_rule(
            #[trigger] rest.drop_first()[i],
        ) by {
            assert(rest.drop_first()[i] == rest[i + 1]);
        }
        lemma_dedup_serializable(acc2, rest.drop_first());
    }
}

/// Parsing, serializing and re-parsing rebuilds the very same rule
/// table: for any file scan that succeeded and passed the
/// cross-reference check, and none of whose assembled rules' names
/// opens with the `;` comment marker, re-scanning the serialized lines
/// succeeds, passes the check again, and assembles to the same named
/// rewrites in the same order — the same grammar in everything but the
/// diagnostic locations. (A name can open with `;` only when its line
/// began with whitespace; serializing such a rule would produce a
/// comment line, which is the one exception to the round trip.)
pub proof fn theorem_parse_serialize_reparse(
    lines: Seq<LineInputModel>,
    file: Seq<char>,
    file2: Seq<char>,
)
    requires
        ({
            let scan = spec_scan_lines(lines, file, 1);
            let ded = spec_dedup(scan.0);
            &&& scan.1.len() == 0
            &&& spec_rules_undef(ded, ded).len() == 0
            &&& forall|i: int| 0 <= i < ded.len() ==> (#[trigger] ded[i]).symbol[0] != ';'
        }),
    ensures
        ({
            let ded = spec_dedup(spec_scan_lines(lines, file, 1).0);
            let es = strip_rules(ded);
            let scan2 = spec_scan_lines(spec_render_entries(es), file2, 1);
            let ded2 = spec_dedup(scan2.0);
            &&& scan2.1.len() == 0
            &&& spec_rules_undef(ded2, ded2).len() == 0
            &&& strip_rules(ded2) == es
            &&& (ded.len() > 0 ==> ded2[0].symbol == ded[0].symbol)
        }),
{
    let scan = spec_scan_lines(lines, file, 1);
    let ded = spec_dedup(scan.0);
    let es = strip_rules(ded);
    lemma_scan_rules_serializable(lines, file, 1);
    lemma_dedup_serializable(Seq::empty(), scan.0);
    assert(serializable_entries(es)) by {
        assert forall|i: int| 0 <= i < es.len() implies serializable_entry(#[trigger] es[i]) by {
            assert(serializable_rule(ded[i]));
            assert(es[i].0 == ded[i].symbol);
            assert(es[i].1 == ded[i].rewrite);
        }
        assert forall|i: int, j: int| 0 <= i < j < es.len() implies es[i].0 != es[j].0 by {
            assert(es[i].0 == ded[i].symbol);
            assert(es[j].0 == ded[j].symbol);
        }
    }
    crate::checker::lemma_verified_closed(ded);
    theorem_round_trip(es, file2);
    let scan2 = spec_scan_lines(spec_render_entries(es), file2, 1);
    let ded2 = spec_dedup(scan2.0);
    if ded.len() > 0 {
        assert(ded2[0].symbol == es[0].0);
    }
}

/// `spec_render_tokens` joins two non-empty token lists with a space.
proof fn lemma_render_tokens_concat(a: Seq<TokenModel>, b: Seq<TokenModel>)
    requires
        a.len() >= 1,
        b.len() >= 1,
    ensures
        spec_render_tokens(a + b) == spec_render_tokens(a) + seq![' '] + spec_render_tokens(b),
    decreases a.len(),
{
    assert((a + b)[0] == a[0]);
    if a.len() == 1 {
        assert((a + b).drop_first() =~= b);
    } else {
        assert((a + b).drop_first() =~= a.drop_first() + b);
        lemma_render_tokens_concat(a.drop_first(), b);
        assert(spec_render_token(a[0]) + seq![' '] + (spec_render_tokens(a.drop_first())
            + seq![' '] + spec_render_tokens(b)) =~= (spec_render_token(a[0]) + seq![' ']
            + spec_render_tokens(a.drop_first())) + seq![' '] + spec_render_tokens(b));
    }
}

/// `rewrite_tokens` joins two non-empty rewrites with a `|` token.
proof fn lemma_rewrite_tokens_concat(a: RewriteModel, b: RewriteModel)
    requires
        a.len() >= 1,
        b.len() >= 1,
    ensures
        rewrite_tokens(a + b) == rewrite_tokens(a) + seq![TokenModel::Or] + rewrite_tokens(b),
    decreases a.len(),
{
    assert((a + b)[0] == a[0]);
    if a.len() == 1 {
        assert((a + b).drop_first() =~= b);
    } else {
        assert((a + b).drop_first() =~= a.drop_first() + b);
        lemma_rewrite_tokens_concat(a.drop_first(), b);
        assert(alt_tokens(a[0]) + seq![TokenModel::Or] + (rewrite_tokens(a.drop_first())
            + seq![TokenModel::Or] + rewrite_tokens(b)) =~= (alt_tokens(a[0])
            + seq![TokenModel::Or] + rewrite_tokens(a.drop_first())) + seq![TokenModel::Or]
            + rewrite_tokens(b));
    }
}

/// Builds the token list of one rule: the defined nonterminal, `=`, and
/// the alternatives' symbols with a `|` between consecutive
/// alternatives.
fn tokens_of_rule(symbol: &String, rewrite: &Rewrite) -> (r: Vec<Token>)
    ensures
        r.deep_view() == rule_tokens(symbol@, rewrite.deep_view()),
{
    let ghost rw = rewrite.deep_view();
    let ghost base = seq![TokenModel::Nonterminal(symbol@), TokenModel::Equals];
    let mut tokens: Vec<Token> = Vec::new();
    tokens.push(Token::Nonterminal(symbol.clone()));
    tokens.push(Token::Equals);
    proof {
        assert(tokens.deep_view() =~= base);
        assert(rw.take(0) =~= Seq::<AlternativeModel>::empty());
        assert(base + rewrite_tokens(rw.take(0)) =~= base);
    }
    let mut i: usize = 0;
    while i < rewrite.len()
        invariant
            0 <= i <= rw.len(),
            rw == rewrite.deep_view(),
            rw.len() == rewrite@.len(),
            tokens.deep_view() == base + rewrite_tokens(rw.take(i as int)),
        decreases rw.len() - i,
    {
        let ghost sep: Seq<TokenModel> = if i > 0 {
            seq![TokenModel::Or]
        } else {
            Seq::empty()
        };
        let ghost before = tokens.deep_view();
        if i > 0 {
            tokens.push(Token::Or);
            proof {
                assert(tokens.deep_view() =~= before + sep);
            }
        } else {
            proof {
                assert(tokens.deep_view() =~= before + sep);
            }
        }
        let ghost mid = tokens.deep_view();
        let alternative = &rewrite[i];
        let ghost alt = alternative.deep_view();
        let mut k: usize = 0;
        proof {
            assert(alt == rw[i as int]);
            assert(alt_tokens(alt.take(0)) =~= Seq::<TokenModel>::empty());
            assert(mid + alt_tokens(alt.take(0)) =~= mid);
        }
        while k < alternative.len()
            invariant
                0 <= k <= alt.len(),
                alt == alternative.deep_view(),
                alt.len() == alternative@.len(),
                mid == before + sep,
                tokens.deep_view() == mid + alt_tokens(alt.take(k as int)),
            decreases alt.len() - k,
        {
            let ghost prev = tokens.deep_view();
            let tok = match &alternative[k] {
                Symbol::Nonterminal(n) => Token::Nonterminal(n.clone()),
                Symbol::Terminal(t) => Token::Terminal(t.clone()),
            };
            proof {
                assert(tok.deep_view() == sym_token(alt[k as int]));
            }
            tokens.push(tok);
            proof {
                assert(tokens.deep_view() =~= prev.push(sym_token(alt[k as int])));
                assert(alt_tokens(alt.take(k as int + 1)) =~= alt_tokens(alt.take(k as int)).push(
                    sym_token(alt[k as int]),
                ));
                assert(mid + alt_tokens(alt.take(k as int)).push(sym_token(alt[k as int])) =~= (mid
                    + alt_tokens(alt.take(k as int))).push(sym_token(alt[k as int])));
            }
            k = k + 1;
        }
        proof {
            assert(alt.take(k as int) =~= alt);
            if i > 0 {
                assert(rw.take(i as int + 1) =~= rw.take(i as int) + seq![alt]);
                lemma_rewrite_tokens_concat(rw.take(i as int), seq![alt]);
                assert(rewrite_tokens(seq![alt]) == alt_tokens(alt));
                assert(base + (rewrite_tokens(rw.take(i as int)) + seq![TokenModel::Or]
                    + alt_tokens(alt)) =~= ((base + rewrite_tokens(rw.take(i as int)))
                    + seq![TokenModel::Or]) + alt_tokens(alt));
            } else {
                assert(rw.take(1) =~= seq![alt]);
                assert(rewrite_tokens(seq![alt]) == alt_tokens(alt));
                assert(rewrite_tokens(rw.take(0)) =~= Seq::<TokenModel>::empty());
                assert(base + rewrite_tokens(rw.take(0)) =~= base);
                assert(base + (Seq::<TokenModel>::empty() + alt_tokens(alt)) =~= base + alt_tokens(
                    alt,
                ));
            }
        }
        i = i + 1;
    }
    proof {
        assert(rw.take(i as int) =~= rw);
        assert(base + rewrite_tokens(rw) =~= rule_tokens(symbol@, rw));
    }
    tokens
}

/// Serializes one rule back into a line of grammar text: its tokens
/// joined by single spaces, terminals double-quoted, nonterminals bare.
pub fn serialize_rule(symbol: &String, rewrite: &Rewrite) -> (r: String)
    ensures
        r@ == spec_render_tokens(rule_tokens(symbol@, rewrite.deep_view())),
{
    let tokens = tokens_of_rule(symbol, rewrite);
    let ghost ts = tokens.deep_view();
    let mut out = String::new();
    let mut j: usize = 0;
    proof {
        assert(ts.take(0) =~= Seq::<TokenModel>::empty());
        assert(out@ =~= spec_render_tokens(ts.take(0)));
    }
    while j < tokens.len()
        invariant
            0 <= j <= ts.len(),
            ts == tokens.deep_view(),
            ts.len() == tokens@.len(),
            out@ == spec_render_tokens(ts.take(j as int)),
        decreases ts.len() - j,
    {
        let ghost prev = out@;
        if j > 0 {
            out.append(" ");
        }
        match &tokens[j] {
            Token::Equals => {
                out.append("=");
                proof {
                    reveal_strlit(" ");
                    reveal_strlit("=");
                    assert(spec_render_token(ts[j as int]) =~= "="@);
                }
            },
            Token::Or => {
                out.append("|");
                proof {
                    reveal_strlit(" ");
                    reveal_strlit("|");
                    assert(spec_render_token(ts[j as int]) =~= "|"@);
                }
            },
            Token::Nonterminal(n) => {
                out.append(n.as_str());
                proof {
                    reveal_strlit(" ");
                    assert(spec_render_token(ts[j as int]) =~= n@);
                }
            },
            Token::Terminal(t) => {
                out.append("\"");
                out.append(t.as_str());
                out.append("\"");
                proof {
                    reveal_strlit(" ");
                    reveal_strlit("\"");
                    assert(spec_render_token(ts[j as int]) =~= "\""@ + t@ + "\""@);
                }
            },
        }
        proof {
            let tj = ts[j as int];
            if j == 0 {
                assert(ts.take(1) =~= seq![tj]);
                assert(out@ =~= spec_render_token(tj));
            } else {
                assert(ts.take(j as int + 1) =~= ts.take(j as int) + seq![tj]);
                lemma_render_tokens_concat(ts.take(j as int), seq![tj]);
                assert(spec_render_tokens(seq![tj]) == spec_render_token(tj));
                assert(out@ =~= (prev + " "@) + spec_render_token(tj));
                assert((prev + " "@) + spec_render_token(tj) =~= prev + seq![' ']
                    + spec_render_token(tj));
            }
        }
        j = j + 1;
    }
    proof {
        assert(ts.take(j as int) =~= ts);
    }
    out
}

/// The serialized lines of a rule table, as texts, in entry order.
pub open spec fn spec_render_entry_lines(es: Seq<EntryModel>) -> Seq<Seq<char>> {
    Seq::new(es.len(), |i: int| spec_render_entry(es[i]))
}

/// Serializes a whole grammar back into lines of grammar text, one rule
/// per line, in the rule table's order.
pub fn serialize_grammar(grammar: &crate::grammar::Grammar) -> (r: Vec<String>)
    ensures
        r.deep_view() == spec_render_entry_lines(grammar.rules.entry_seq()),
{
    let ghost es = grammar.rules.entry_seq();
    let mut lines: Vec<String> = Vec::new();
    let total = grammar.rules.len();
    let mut i: usize = 0;
    proof {
        assert(lines.deep_view() =~= spec_render_entry_lines(es.take(0)));
    }
    while i < total
        invariant
            0 <= i <= total,
            total == es.len(),
            es == grammar.rules.entry_seq(),
            lines.deep_view() == spec_render_entry_lines(es.take(i as int)),
        decreases total - i,
    {
        let ghost prev = lines.deep_view();
        let entry = grammar.rules.entry_at(i);
        let line = serialize_rule(&entry.0, &entry.1);
        proof {
            assert(entry.0@ == es[i as int].0);
            assert(entry.1.deep_view() == es[i as int].1);
        }
        lines.push(line);
        proof {
            assert(lines.deep_view() =~= prev.push(spec_render_entry(es[i as int])));
            assert(spec_render_entry_lines(es.take(i as int + 1)) =~= spec_render_entry_lines(
                es.take(i as int),
            ).push(spec_render_entry(es[i as int])));
        }
        i = i + 1;
    }
    proof {
        assert(es.take(i as int) =~= es);
    }
    lines
}

/// The round trip: scanning the serialized lines of a well-formed
/// grammar's rule table yields no errors, assembles to the very same
/// rules in the same order, and passes the cross-reference check, so
/// re-parsing rebuilds a grammar with the same rule table and the same
/// start symbol — equal in everything but the diagnostic locations,
/// which the compiled grammar does not keep.
pub proof fn theorem_round_trip(es: Seq<EntryModel>, file: Seq<char>)
    requires
        serializable_entries(es),
        rules_closed(map_of_entries(es)),
    ensures
        ({
            let scan = spec_scan_lines(spec_render_entries(es), file, 1);
            let ded = spec_dedup(scan.0);
            &&& scan.1.len() == 0
            &&& ded == scan.0
            &&& strip_rules(ded) == es
            &&& spec_rules_undef(ded, ded).len() == 0
            &&& (es.len() > 0 ==> ded[0].symbol == es[0].0)
        }),
{
    lemma_scan_render(es, file, 1);
    let scan = spec_scan_lines(spec_render_entries(es), file, 1);
    let rs = scan.0;
    assert forall|i: int, j: int| 0 <= i < j < rs.len() implies rs[i].symbol != rs[j].symbol by {
        assert(rs[i].symbol == es[i].0);
        assert(rs[j].symbol == es[j].0);
    }
    lemma_dedup_unique(rs);
    assert(strip_rules(rs) =~= es);
    let m = map_of_entries(es);
    assert forall|i: int| 0 <= i < rs.len() implies rewrite_closed(
        (#[trigger] rs[i]).rewrite,
        rules_dom(rs),
    ) by {
        lemma_map_of_entries_at(es, i);
        assert(m[es[i].0] == es[i].1);
        assert(rewrite_closed(es[i].1, m.dom()));
        assert forall|n: Seq<char>| m.dom().contains(n) implies rules_dom(rs).contains(n) by {
            lemma_map_of_entries_dom(es, n);
            let j = choose|j: int| 0 <= j < es.len() && es[j].0 == n;
            assert(rs[j].symbol == n);
            assert(rules_define(rs, n));
        }
        lemma_rewrite_closed_mono(es[i].1, m.dom(), rules_dom(rs));
        assert(rs[i].rewrite == es[i].1);
    }
    lemma_defined_rules_no_undef(rs, rs);
}

} // verus!
