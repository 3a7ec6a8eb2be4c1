//! The cross-reference check: every nonterminal referenced anywhere in
//! a rule table must have a defining rule.
//!
//! The check walks the whole table and collects one located
//! `UndefinedNonterminal` error per bad reference — it never stops at
//! the first — so that a grammar is promoted to a
//! [`Grammar`](crate::grammar::Grammar) only when the collection comes
//! back empty.

use vstd::prelude::*;

use crate::error_handling::{Error, ErrorModel, Location, LocationModel};
use crate::grammar::{Alternative, AlternativeModel, RewriteModel, Symbol, SymbolModel};
use crate::parser::{
    CompileError, CompileErrorType, CompileErrorTypeModel, CompileErrors, FileResult, Rule,
    RuleModel,
};

verus! {

/// Whether some rule of `rs` defines `name`.
pub open spec fn rules_define(rs: Seq<RuleModel>, name: Seq<char>) -> bool {
    exists|i: int| 0 <= i < rs.len() && rs[i].symbol == name
}

/// The position of the first rule of `rs` defining `name`, or the
/// number of rules if there is none.
pub open spec fn rule_index_of(rs: Seq<RuleModel>, name: Seq<char>) -> int
    decreases rs.len(),
{
    if rs.len() == 0 {
        0
    } else if rs[0].symbol == name {
        0
    } else {
        1 + rule_index_of(rs.drop_first(), name)
    }
}

/// `rule_index_of` lands on a rule exactly when some rule bears the name.
pub proof fn lemma_rule_index_of(rs: Seq<RuleModel>, name: Seq<char>)
    ensures
        0 <= rule_index_of(rs, name) <= rs.len(),
        rule_index_of(rs, name) < rs.len() ==> rs[rule_index_of(rs, name)].symbol == name,
        rules_define(rs, name) <==> rule_index_of(rs, name) < rs.len(),
        forall|j: int| 0 <= j < rule_index_of(rs, name) ==> rs[j].symbol != name,
    decreases rs.len(),
{
    if rs.len() > 0 && rs[0].symbol != name {
        lemma_rule_index_of(rs.drop_first(), name);
        let i = rule_index_of(rs, name);
        assert forall|j: int| 0 <= j < i implies rs[j].symbol != name by {
            if j > 0 {
                assert(rs.drop_first()[j - 1] == rs[j]);
            }
        }
        if rules_define(rs, name) {
            let k = choose|k: int| 0 <= k < rs.len() && rs[k].symbol == name;
            assert(rs.drop_first()[k - 1].symbol == name);
        }
        if rules_define(rs.drop_first(), name) {
            let k = choose|k: int|
                0 <= k < rs.drop_first().len() && rs.drop_first()[k].symbol == name;
            assert(rs[k + 1].symbol == name);
        }
    }
}

/// The located `UndefinedNonterminal` errors of one alternative, in
/// symbol order: one per reference to a name no rule of `rs` defines.
pub open spec fn spec_alternative_undef(
    alt: AlternativeModel,
    loc: LocationModel,
    rs: Seq<RuleModel>,
) -> Seq<ErrorModel<CompileErrorTypeModel>>
    decreases alt.len(),
{
    if alt.len() == 0 {
        Seq::empty()
    } else {
        let rest = spec_alternative_undef(alt.drop_first(), loc, rs);
        match alt[0] {
            SymbolModel::Terminal(_) => rest,
            SymbolModel::Nonterminal(n) => if rules_define(rs, n) {
                rest
            } else {
                seq![
                    ErrorModel {
                        location: loc,
                        error: CompileErrorTypeModel::UndefinedNonterminal(n),
                    },
                ] + rest
            },
        }
    }
}

/// The located `UndefinedNonterminal` errors of one rewrite, in
/// alternative order.
pub open spec fn spec_rewrite_undef(
    rw: RewriteModel,
    loc: LocationModel,
    rs: Seq<RuleModel>,
) -> Seq<ErrorModel<CompileErrorTypeModel>>
    decreases rw.len(),
{
    if rw.len() == 0 {
        Seq::empty()
    } else {
        spec_alternative_undef(rw[0], loc, rs) + spec_rewrite_undef(rw.drop_first(), loc, rs)
    }
}

/// The located `UndefinedNonterminal` errors of the rules `todo`, each
/// checked against the whole table `rs` and located at its own
/// declaration line, in rule order.
pub open spec fn spec_rules_undef(todo: Seq<RuleModel>, rs: Seq<RuleModel>) -> Seq<
    ErrorModel<CompileErrorTypeModel>,
>
    decreases todo.len(),
{
    if todo.len() == 0 {
        Seq::empty()
    } else {
        spec_rewrite_undef(todo[0].rewrite, todo[0].location, rs) + spec_rules_undef(
            todo.drop_first(),
            rs,
        )
    }
}

/// The rule table between line parsing and grammar assembly: rules in
/// insertion order with pairwise distinct symbols, each still carrying
/// the line it was declared on. The last definition of a symbol wins.
#[derive(Debug, PartialEq)]
pub struct IntermediateRuleset {
    rules: Vec<Rule>,
}

impl IntermediateRuleset {
    /// The rules in insertion order, as mathematical values.
    pub closed spec fn rule_seq(self) -> Seq<RuleModel> {
        self.rules.deep_view()
    }

    /// No two rules define the same symbol.
    pub open spec fn wf(self) -> bool {
        forall|j: int, k: int|
            0 <= j < k < self.rule_seq().len() ==> self.rule_seq()[j].symbol
                != self.rule_seq()[k].symbol
    }

    /// An empty rule table.
    pub fn new() -> (r: IntermediateRuleset)
        ensures
            r.wf(),
            r.rule_seq() == Seq::<RuleModel>::empty(),
    {
        let r = IntermediateRuleset { rules: Vec::new() };
        proof {
            assert(r.rules.deep_view() =~= Seq::<RuleModel>::empty());
        }
        r
    }

    /// How many rules the table holds.
    pub fn len(&self) -> (n: usize)
        ensures
            n == self.rule_seq().len(),
    {
        self.rules.len()
    }

    /// The rule at position `i` of the insertion order.
    pub fn rule_at(&self, i: usize) -> (r: &Rule)
        requires
            i < self.rule_seq().len(),
        ensures
            r.deep_view() == self.rule_seq()[i as int],
    {
        &self.rules[i]
    }

    /// The position of the first rule defining `symbol`, or the number
    /// of rules if there is none.
    fn find(&self, symbol: &String) -> (i: usize)
        ensures
            i == rule_index_of(self.rule_seq(), symbol@),
            i <= self.rule_seq().len(),
            i < self.rule_seq().len() ==> self.rule_seq()[i as int].symbol == symbol@,
    {
        let ghost rs = self.rule_seq();
        let mut i: usize = 0;
        proof {
            assert(rs.skip(0) =~= rs);
            lemma_rule_index_of(rs, symbol@);
        }
        while i < self.rules.len()
            invariant
                0 <= i <= rs.len(),
                rs == self.rule_seq(),
                rs.len() == self.rules.len(),
                rule_index_of(rs, symbol@) == i + rule_index_of(rs.skip(i as int), symbol@),
                forall|j: int| 0 <= j < i ==> rs[j].symbol != symbol@,
            decreases rs.len() - i,
        {
            proof {
                assert(rs[i as int] == self.rules@[i as int].deep_view());
                assert(rs.skip(i as int)[0] == rs[i as int]);
            }
            if self.rules[i].symbol == *symbol {
                proof {
                    assert(rule_index_of(rs.skip(i as int), symbol@) == 0);
                }
                return i;
            }
            proof {
                assert(rs.skip(i as int).drop_first() =~= rs.skip(i as int + 1));
            }
            i = i + 1;
        }
        proof {
            assert(rs.skip(i as int) =~= Seq::<RuleModel>::empty());
        }
        i
    }

    /// Whether some rule of the table defines `symbol`.
    pub fn defines(&self, symbol: &String) -> (r: bool)
        ensures
            r == rules_define(self.rule_seq(), symbol@),
    {
        proof {
            lemma_rule_index_of(self.rule_seq(), symbol@);
        }
        let i = self.find(symbol);
        i < self.rules.len()
    }

    /// Gives the rules up, in insertion order.
    pub fn into_rules(self) -> (r: Vec<Rule>)
        ensures
            r.deep_view() == self.rule_seq(),
    {
        self.rules
    }

    /// Adds a rule, replacing any earlier rule for the same symbol (the
    /// last definition of a symbol wins; it keeps the first one's
    /// position in the order).
    pub fn insert(&mut self, rule: Rule)
        requires
            old(self).wf(),
        ensures
            final(self).wf(),
            final(self).rule_seq() == rule_insert(old(self).rule_seq(), rule.deep_view()),
    {
        proof {
            lemma_rule_index_of(old(self).rule_seq(), rule.symbol@);
        }
        let ghost old_rs = self.rule_seq();
        let ghost rv = rule.deep_view();
        let i = self.find(&rule.symbol);
        if i < self.rules.len() {
            self.rules.set(i, rule);
            proof {
                assert(self.rule_seq() =~= old_rs.update(i as int, rv));
            }
        } else {
            self.rules.push(rule);
            proof {
                assert(self.rule_seq() =~= old_rs.push(rv));
            }
        }
    }
}

/// A rule table with `r` added: `r` replaces the first rule of its
/// symbol, or comes last if its symbol is new.
pub open spec fn rule_insert(rs: Seq<RuleModel>, r: RuleModel) -> Seq<RuleModel> {
    if rules_define(rs, r.symbol) {
        rs.update(rule_index_of(rs, r.symbol), r)
    } else {
        rs.push(r)
    }
}

/// The rule table that processing `rules` left to right builds up from
/// `acc`, the last definition of a symbol winning.
pub open spec fn spec_dedup_into(acc: Seq<RuleModel>, rules: Seq<RuleModel>) -> Seq<RuleModel>
    decreases rules.len(),
{
    if rules.len() == 0 {
        acc
    } else {
        spec_dedup_into(rule_insert(acc, rules[0]), rules.drop_first())
    }
}

/// The rule table a list of parsed rules assembles into: the rules in
/// order, the last definition of a symbol winning.
pub open spec fn spec_dedup(rules: Seq<RuleModel>) -> Seq<RuleModel> {
    spec_dedup_into(Seq::empty(), rules)
}

/// The located errors for the references of one alternative to
/// nonterminals the table does not define, in symbol order.
pub fn get_alternative_undefined_symbols(
    alternative: &Alternative,
    location: &Location,
    rules: &IntermediateRuleset,
) -> (r: CompileErrors)
    ensures
        r.deep_view() == spec_alternative_undef(
            alternative.deep_view(),
            location.deep_view(),
            rules.rule_seq(),
        ),
{
    let ghost alt = alternative.deep_view();
    let ghost loc = location.deep_view();
    let ghost rs = rules.rule_seq();
    let mut errors: CompileErrors = Vec::new();
    let mut i: usize = 0;
    proof {
        assert(alt.skip(0) =~= alt);
        assert(errors.deep_view() =~= Seq::<ErrorModel<CompileErrorTypeModel>>::empty());
    }
    while i < alternative.len()
        invariant
            0 <= i <= alt.len(),
            alt == alternative.deep_view(),
            loc == location.deep_view(),
            rs == rules.rule_seq(),
            alt.len() == alternative@.len(),
            spec_alternative_undef(alt, loc, rs) == errors.deep_view() + spec_alternative_undef(
                alt.skip(i as int),
                loc,
                rs,
            ),
        decreases alt.len() - i,
    {
        let ghost prev = errors.deep_view();
        let ghost rest = spec_alternative_undef(alt.skip(i as int + 1), loc, rs);
        proof {
            assert(alt.skip(i as int)[0] == alt[i as int]);
            assert(alt.skip(i as int).drop_first() =~= alt.skip(i as int + 1));
        }
        match &alternative[i] {
            Symbol::Terminal(_) => {
            },
            Symbol::Nonterminal(n) => {
                if !rules.defines(n) {
                    errors.push(
                        Error {
                            location: location.clone(),
                            error: CompileErrorType::UndefinedNonterminal(n.clone()),
                        },
                    );
                    proof {
                        let em = ErrorModel {
                            location: loc,
                            error: CompileErrorTypeModel::UndefinedNonterminal(n@),
                        };
                        assert(errors.deep_view() =~= prev.push(em));
                        assert(prev.push(em) + rest =~= prev + (seq![em] + rest));
                    }
                }
            },
        }
        i = i + 1;
    }
    proof {
        assert(alt.skip(i as int) =~= Seq::<SymbolModel>::empty());
        assert(errors.deep_view() + Seq::<ErrorModel<CompileErrorTypeModel>>::empty()
            =~= errors.deep_view());
    }
    errors
}

/// The located errors for the references of one rewrite to nonterminals
/// the table does not define, in alternative order.
pub fn get_rewrite_undefined_symbols(
    rewrite: &Vec<Alternative>,
    location: &Location,
    rules: &IntermediateRuleset,
) -> (r: CompileErrors)
    ensures
        r.deep_view() == spec_rewrite_undef(
            rewrite.deep_view(),
            location.deep_view(),
            rules.rule_seq(),
        ),
{
    let ghost rw = rewrite.deep_view();
    let ghost loc = location.deep_view();
    let ghost rs = rules.rule_seq();
    let mut errors: CompileErrors = Vec::new();
    let mut i: usize = 0;
    proof {
        assert(rw.skip(0) =~= rw);
        assert(errors.deep_view() =~= Seq::<ErrorModel<CompileErrorTypeModel>>::empty());
    }
    while i < rewrite.len()
        invariant
            0 <= i <= rw.len(),
            rw == rewrite.deep_view(),
            loc == location.deep_view(),
            rs == rules.rule_seq(),
            rw.len() == rewrite@.len(),
            spec_rewrite_undef(rw, loc, rs) == errors.deep_view() + spec_rewrite_undef(
                rw.skip(i as int),
                loc,
                rs,
            ),
        decreases rw.len() - i,
    {
        let ghost prev = errors.deep_view();
        let ghost rest = spec_rewrite_undef(rw.skip(i as int + 1), loc, rs);
        proof {
            assert(rw.skip(i as int)[0] == rw[i as int]);
            assert(rw.skip(i as int).drop_first() =~= rw.skip(i as int + 1));
        }
        let mut sub = get_alternative_undefined_symbols(&rewrite[i], location, rules);
        let ghost sub_view = sub.deep_view();
        errors.append(&mut sub);
        proof {
            assert(errors.deep_view() =~= prev + sub_view);
            assert((prev + sub_view) + rest =~= prev + (sub_view + rest));
        }
        i = i + 1;
    }
    proof {
        assert(rw.skip(i as int) =~= Seq::<AlternativeModel>::empty());
        assert(errors.deep_view() + Seq::<ErrorModel<CompileErrorTypeModel>>::empty()
            =~= errors.deep_view());
    }
    errors
}

/// The located errors for every reference anywhere in the table to a
/// nonterminal the table does not define, in rule order.
pub fn get_undefined_symbols(rules: &IntermediateRuleset) -> (r: CompileErrors)
    ensures
        r.deep_view() == spec_rules_undef(rules.rule_seq(), rules.rule_seq()),
{
    let ghost rs = rules.rule_seq();
    let mut errors: CompileErrors = Vec::new();
    let mut i: usize = 0;
    proof {
        assert(rs.skip(0) =~= rs);
        assert(errors.deep_view() =~= Seq::<ErrorModel<CompileErrorTypeModel>>::empty());
    }
    while i < rules.len()
        invariant
            0 <= i <= rs.len(),
            rs == rules.rule_seq(),
            spec_rules_undef(rs, rs) == errors.deep_view() + spec_rules_undef(
                rs.skip(i as int),
                rs,
            ),
        decreases rs.len() - i,
    {
        let ghost prev = errors.deep_view();
        let ghost rest = spec_rules_undef(rs.skip(i as int + 1), rs);
        proof {
            assert(rs.skip(i as int)[0] == rs[i as int]);
            assert(rs.skip(i as int).drop_first() =~= rs.skip(i as int + 1));
        }
        let rule = rules.rule_at(i);
        let mut sub = get_rewrite_undefined_symbols(&rule.rewrite, &rule.location, rules);
        let ghost sub_view = sub.deep_view();
        errors.append(&mut sub);
        proof {
            assert(errors.deep_view() =~= prev + sub_view);
            assert((prev + sub_view) + rest =~= prev + (sub_view + rest));
        }
        i = i + 1;
    }
    proof {
        assert(rs.skip(i as int) =~= Seq::<RuleModel>::empty());
        assert(errors.deep_view() + Seq::<ErrorModel<CompileErrorTypeModel>>::empty()
            =~= errors.deep_view());
    }
    errors
}

/// In an error list built by concatenation, an empty whole means every
/// alternative contributed nothing: each referenced nonterminal is
/// defined.
proof fn lemma_alternative_undef_empty(
    alt: AlternativeModel,
    loc: LocationModel,
    rs: Seq<RuleModel>,
    k: int,
)
    requires
        spec_alternative_undef(alt, loc, rs).len() == 0,
        0 <= k < alt.len(),
        alt[k] is Nonterminal,
    ensures
        rules_define(rs, alt[k]->Nonterminal_0),
    decreases alt.len(),
{
    if k == 0 {
        if !rules_define(rs, alt[0]->Nonterminal_0) {
            assert(spec_alternative_undef(alt, loc, rs).len() > 0);
        }
    } else {
        assert(spec_alternative_undef(alt.drop_first(), loc, rs).len() == 0) by {
            if alt[0] is Nonterminal && !rules_define(rs, alt[0]->Nonterminal_0) {
                assert(spec_alternative_undef(alt, loc, rs).len() > 0);
            }
        }
        assert(alt.drop_first()[k - 1] == alt[k]);
        lemma_alternative_undef_empty(alt.drop_first(), loc, rs, k - 1);
    }
}

/// An empty error list for a rewrite means an empty one for each of its
/// alternatives.
proof fn lemma_rewrite_undef_empty(rw: RewriteModel, loc: LocationModel, rs: Seq<RuleModel>, i: int)
    requires
        spec_rewrite_undef(rw, loc, rs).len() == 0,
        0 <= i < rw.len(),
    ensures
        spec_alternative_undef(rw[i], loc, rs).len() == 0,
    decreases rw.len(),
{
    if i > 0 {
        assert(rw.drop_first()[i - 1] == rw[i]);
        lemma_rewrite_undef_empty(rw.drop_first(), loc, rs, i - 1);
    }
}

/// An empty error list for the whole table means an empty one for each
/// rule's rewrite.
proof fn lemma_rules_undef_empty(todo: Seq<RuleModel>, rs: Seq<RuleModel>, i: int)
    requires
        spec_rules_undef(todo, rs).len() == 0,
        0 <= i < todo.len(),
    ensures
        spec_rewrite_undef(todo[i].rewrite, todo[i].location, rs).len() == 0,
    decreases todo.len(),
{
    if i > 0 {
        assert(todo.drop_first()[i - 1] == todo[i]);
        lemma_rules_undef_empty(todo.drop_first(), rs, i - 1);
    }
}

/// The named entries of a rule table, the locations left behind.
pub open spec fn strip_rules(rs: Seq<RuleModel>) -> Seq<crate::grammar::EntryModel> {
    Seq::new(rs.len(), |i: int| (rs[i].symbol, rs[i].rewrite))
}

/// A rule table that the cross-reference check passed builds a closed
/// map: every nonterminal referenced in it is one of its keys.
pub proof fn lemma_verified_closed(rs: Seq<RuleModel>)
    requires
        spec_rules_undef(rs, rs).len() == 0,
        forall|j: int, k: int| 0 <= j < k < rs.len() ==> rs[j].symbol != rs[k].symbol,
    ensures
        crate::grammar::rules_closed(crate::grammar::map_of_entries(strip_rules(rs))),
{
    let es = strip_rules(rs);
    let m = crate::grammar::map_of_entries(es);
    assert forall|name: Seq<char>| m.contains_key(name) implies crate::grammar::rewrite_closed(
        #[trigger] m[name],
        m.dom(),
    ) by {
        crate::grammar::lemma_map_of_entries_dom(es, name);
        let i = choose|i: int| 0 <= i < es.len() && es[i].0 == name;
        crate::grammar::lemma_map_of_entries_at(es, i);
        assert(m[name] == rs[i].rewrite);
        let rw = rs[i].rewrite;
        let loc = rs[i].location;
        lemma_rules_undef_empty(rs, rs, i);
        assert forall|a: int| 0 <= a < rw.len() implies crate::grammar::alternative_closed(
            #[trigger] rw[a],
            m.dom(),
        ) by {
            lemma_rewrite_undef_empty(rw, loc, rs, a);
            let alt = rw[a];
            assert forall|k: int| 0 <= k < alt.len() implies crate::grammar::symbol_closed(
                #[trigger] alt[k],
                m.dom(),
            ) by {
                if alt[k] is Nonterminal {
                    lemma_alternative_undef_empty(alt, loc, rs, k);
                    let n = alt[k]->Nonterminal_0;
                    let j = choose|j: int| 0 <= j < rs.len() && rs[j].symbol == n;
                    assert(es[j].0 == n);
                    crate::grammar::lemma_map_of_entries_dom(es, n);
                }
            }
        }
    }
}

/// Checks the whole table: `Ok` exactly when every nonterminal
/// referenced in any alternative of any rule is defined; otherwise the
/// full list of located `UndefinedNonterminal` errors, one per bad
/// reference, in rule order.
pub fn verify_rules(rules: &IntermediateRuleset) -> (r: FileResult<()>)
    ensures
        match r {
            Ok(_) => spec_rules_undef(rules.rule_seq(), rules.rule_seq()).len() == 0,
            Err(errs) => errs.deep_view() == spec_rules_undef(rules.rule_seq(), rules.rule_seq())
                && errs.deep_view().len() > 0,
        },
{
    let errors = get_undefined_symbols(rules);
    if errors.len() > 0 {
        Err(errors)
    } else {
        proof {
            assert(errors.deep_view().len() == errors@.len());
        }
        Ok(())
    }
}

} // verus!
