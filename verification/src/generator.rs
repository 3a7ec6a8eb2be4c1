//! The generator: expands a start symbol into a sentence.
//!
//! Each nonterminal is rewritten by one of its alternatives, picked
//! uniformly at random; the symbols of the chosen alternative are
//! expanded in order and concatenated, a terminal contributing its text
//! verbatim. Whatever the random choices, every produced sentence is a
//! derivation of the grammar in the sense of [`can_derive`]. Expansion
//! depth is bounded by [`MAX_EXPANSION_DEPTH`], so that a cyclic
//! grammar with no escape fails with `RecursionLimit` instead of
//! recursing forever.

use vstd::prelude::*;
use vstd::string::StringExecFns;

use crate::error_handling::ErrorType;
use crate::grammar::{
    alternative_closed, rewrite_closed, rules_closed, symbol_closed, Alternative,
    AlternativeModel, Grammar, Rewrite, RewriteModel, RuleMap, Symbol, SymbolModel,
};

verus! {

/// How many levels of nested nonterminal expansion a single generation
/// may use before it fails with `RecursionLimit`.
pub const MAX_EXPANSION_DEPTH: u64 = 4096;

/// Everything that can go wrong while generating a sentence.
#[derive(Debug, PartialEq)]
pub enum GenerateErrorType {
    /// The start symbol (or, in an unchecked grammar, some referenced
    /// nonterminal) has no defining rule.
    UndefinedNonterminal(String),
    /// The expansion went deeper than [`MAX_EXPANSION_DEPTH`] levels of
    /// nested nonterminals.
    RecursionLimit,
}

/// The mathematical value of a [`GenerateErrorType`].
pub enum GenerateErrorTypeModel {
    /// A nonterminal has no defining rule.
    UndefinedNonterminal(Seq<char>),
    /// The expansion went too deep.
    RecursionLimit,
}

impl DeepView for GenerateErrorType {
    type V = GenerateErrorTypeModel;

    open spec fn deep_view(&self) -> GenerateErrorTypeModel {
        match self {
            GenerateErrorType::UndefinedNonterminal(n) => {
                GenerateErrorTypeModel::UndefinedNonterminal(n@)
            },
            GenerateErrorType::RecursionLimit => GenerateErrorTypeModel::RecursionLimit,
        }
    }
}

impl ErrorType for GenerateErrorType {

}

/// The message that [`GenerateErrorType::message`] renders.
pub open spec fn spec_generate_error_message(e: GenerateErrorTypeModel) -> Seq<char> {
    match e {
        GenerateErrorTypeModel::UndefinedNonterminal(n) => {
            "No definition for nonterminal `"@ + n + "`"@
        },
        GenerateErrorTypeModel::RecursionLimit => {
            "Expansion went past the depth limit; the grammar may never terminate"@
        },
    }
}

impl GenerateErrorType {
    /// The human-readable description of this error.
    pub fn message(&self) -> (r: String)
        ensures
            r@ == spec_generate_error_message(self.deep_view()),
    {
        match self {
            GenerateErrorType::UndefinedNonterminal(n) => {
                let mut s = "No definition for nonterminal `".to_owned();
                s.append(n.as_str());
                s.append("`");
                s
            },
            GenerateErrorType::RecursionLimit => {
                "Expansion went past the depth limit; the grammar may never terminate".to_owned()
            },
        }
    }
}

/// What one generation attempt yields: the sentence, or the error.
pub type GenResult = Result<String, GenerateErrorType>;

/// Relies on rand::Rng::gen_range on the range `0..len`, drawn from
/// rand::thread_rng: the index is uniformly random over the range, so
/// it is always below `len`; the range is not empty, so the call does
/// not panic.
#[verifier::external_body]
fn random_index(len: usize) -> (r: usize)
    requires
        len > 0,
    ensures
        r < len,
{
    rand::Rng::gen_range(&mut rand::thread_rng(), 0..len)
}

/// The text a symbol contributes on its own: a terminal its literal
/// text, a nonterminal nothing.
pub open spec fn sym_text(s: SymbolModel) -> Seq<char> {
    match s {
        SymbolModel::Terminal(t) => t,
        SymbolModel::Nonterminal(_) => Seq::empty(),
    }
}

/// Whether every symbol of the alternative is a terminal.
pub open spec fn alt_terminal_only(alt: AlternativeModel) -> bool {
    forall|i: int| 0 <= i < alt.len() ==> (#[trigger] alt[i]) is Terminal
}

/// The terminal text of an alternative, in order; nonterminals
/// contribute nothing.
pub open spec fn alt_text(alt: AlternativeModel) -> Seq<char>
    decreases alt.len(),
{
    if alt.len() == 0 {
        Seq::empty()
    } else {
        sym_text(alt[0]) + alt_text(alt.drop_first())
    }
}

/// `alt_text` distributes over concatenation.
proof fn lemma_alt_text_concat(a: AlternativeModel, b: AlternativeModel)
    ensures
        alt_text(a + b) == alt_text(a) + alt_text(b),
    decreases a.len(),
{
    if a.len() == 0 {
        assert(a + b =~= b);
        assert(alt_text(a) + alt_text(b) =~= alt_text(b));
    } else {
        assert((a + b)[0] == a[0]);
        assert((a + b).drop_first() =~= a.drop_first() + b);
        lemma_alt_text_concat(a.drop_first(), b);
        assert(sym_text(a[0]) + (alt_text(a.drop_first()) + alt_text(b)) =~= (sym_text(a[0])
            + alt_text(a.drop_first())) + alt_text(b));
    }
}

/// `alt_text` splits over one more symbol taken from the front.
proof fn lemma_alt_text_snoc(alt: AlternativeModel, j: int)
    requires
        0 <= j < alt.len(),
    ensures
        alt_text(alt.take(j + 1)) == alt_text(alt.take(j)) + sym_text(alt[j]),
{
    assert(alt.take(j + 1) =~= alt.take(j) + seq![alt[j]]);
    lemma_alt_text_concat(alt.take(j), seq![alt[j]]);
    assert(seq![alt[j]].drop_first() =~= Seq::<SymbolModel>::empty());
    assert(alt_text(seq![alt[j]]) == sym_text(alt[j]) + alt_text(seq![alt[j]].drop_first()));
    assert(sym_text(alt[j]) + Seq::<char>::empty() =~= sym_text(alt[j]));
}

/// Whether `out` is a sentence the rules can derive from `name` in at
/// most `fuel` levels of nested nonterminal expansion: `name` has a
/// rule, and `out` splits along one of its alternatives, each terminal
/// contributing its text and each nonterminal a derivation of its own.
/// A rule with no alternatives derives the empty sentence.
pub open spec fn can_derive(
    m: Map<Seq<char>, RewriteModel>,
    name: Seq<char>,
    out: Seq<char>,
    fuel: nat,
) -> bool
    decreases fuel, 1int, 0int,
{
    m.contains_key(name) && {
        let rw = m[name];
        if rw.len() == 0 {
            out == Seq::<char>::empty()
        } else {
            exists|i: int| 0 <= i < rw.len() && can_derive_alt(m, #[trigger] rw[i], out, fuel)
        }
    }
}

/// Whether `out` splits along the symbols of `alt`: the text of each
/// terminal in order, with a derivation of each nonterminal in between.
/// Expanding a nonterminal costs one unit of fuel.
pub open spec fn can_derive_alt(
    m: Map<Seq<char>, RewriteModel>,
    alt: AlternativeModel,
    out: Seq<char>,
    fuel: nat,
) -> bool
    decreases fuel, 0int, alt.len(),
{
    if alt.len() == 0 {
        out == Seq::<char>::empty()
    } else {
        match alt[0] {
            SymbolModel::Terminal(t) => out.len() >= t.len() && out.take(t.len() as int) == t
                && can_derive_alt(m, alt.drop_first(), out.skip(t.len() as int), fuel),
            SymbolModel::Nonterminal(n) => fuel > 0 && exists|k: int|
                0 <= k <= out.len() && can_derive(m, n, out.take(k), (fuel - 1) as nat)
                    && can_derive_alt(m, alt.drop_first(), out.skip(k), fuel),
        }
    }
}

/// What any one generation attempt for `name` promises, whatever the
/// random choices were: a produced sentence is a derivation of the
/// rules; a missing start rule is reported as exactly that; an
/// `UndefinedNonterminal` error always names a nonterminal the rules do
/// not define, so it cannot arise from a defined start symbol in a
/// closed (verified) grammar; and a rule whose single alternative holds
/// only terminals yields exactly its text, deterministically.
pub open spec fn gen_post(
    m: Map<Seq<char>, RewriteModel>,
    name: Seq<char>,
    r: GenResult,
    fuel: nat,
) -> bool {
    &&& (match r {
        Ok(out) => m.contains_key(name) && can_derive(m, name, out@, fuel + 1),
        Err(e) => e.deep_view() is UndefinedNonterminal || e.deep_view() is RecursionLimit,
    })
    &&& (!m.contains_key(name) ==> (r matches Err(e) && e.deep_view()
        == GenerateErrorTypeModel::UndefinedNonterminal(name)))
    &&& (match r {
        Err(e) => match e.deep_view() {
            GenerateErrorTypeModel::UndefinedNonterminal(nm) => !m.contains_key(nm),
            GenerateErrorTypeModel::RecursionLimit => true,
        },
        Ok(_) => true,
    })
    &&& (rules_closed(m) && m.contains_key(name) ==> !(r matches Err(e)
        && e.deep_view() is UndefinedNonterminal))
    &&& (m.contains_key(name) && m[name].len() == 1 && alt_terminal_only(m[name][0]) ==> (
    r matches Ok(out) && out@ == alt_text(m[name][0])))
}

/// Expands one nonterminal: looks its rule up and rewrites by it, or
/// fails with `UndefinedNonterminal` naming it.
fn generate_nonterminal(nonterminal: &String, rules: &RuleMap, fuel: u64) -> (r: GenResult)
    requires
        rules.wf(),
    ensures
        gen_post(rules@, nonterminal@, r, fuel as nat),
    decreases fuel, 2int,
{
    let rewrite = match rules.get(nonterminal) {
        Some(rw) => rw,
        None => {
            return Err(GenerateErrorType::UndefinedNonterminal(nonterminal.clone()));
        },
    };
    generate_rewrite(rewrite, rules, fuel)
}

/// Expands one rewrite: picks one alternative uniformly at random and
/// expands its symbols in order. A rewrite with no alternatives yields
/// the empty sentence.
fn generate_rewrite(rewrite: &Rewrite, rules: &RuleMap, fuel: u64) -> (r: GenResult)
    requires
        rules.wf(),
    ensures
        ({
            let m = rules@;
            let rw = rewrite.deep_view();
            let fl = fuel as nat + 1;
            &&& (match r {
                Ok(out) => (rw.len() == 0 ==> out@ == Seq::<char>::empty()) && (rw.len() > 0
                    ==> exists|i: int|
                    0 <= i < rw.len() && can_derive_alt(m, #[trigger] rw[i], out@, fl)),
                Err(e) => e.deep_view() is UndefinedNonterminal
                    || e.deep_view() is RecursionLimit,
            })
            &&& (rw.len() == 0 ==> (r matches Ok(out) && out@ == Seq::<char>::empty()))
            &&& (match r {
                Err(e) => match e.deep_view() {
                    GenerateErrorTypeModel::UndefinedNonterminal(nm) => !m.contains_key(nm),
                    GenerateErrorTypeModel::RecursionLimit => true,
                },
                Ok(_) => true,
            })
            &&& (rules_closed(m) && rewrite_closed(rw, m.dom()) ==> !(r matches Err(e)
                && e.deep_view() is UndefinedNonterminal))
            &&& (rw.len() == 1 && alt_terminal_only(rw[0]) ==> (r matches Ok(out) && out@
                == alt_text(rw[0])))
        }),
    decreases fuel, 1int,
{
    let ghost m = rules@;
    let ghost rw = rewrite.deep_view();
    let ghost fl = fuel as nat + 1;
    if rewrite.len() == 0 {
        return Ok(String::new());
    }
    let chosen = random_index(rewrite.len());
    let alternative = &rewrite[chosen];
    let ghost alt = alternative.deep_view();
    proof {
        assert(alt == rw[chosen as int]);
    }
    let mut result = String::new();
    let mut j: usize = 0;
    proof {
        assert(alt.skip(0) =~= alt);
        assert forall|o2: Seq<char>| #[trigger] can_derive_alt(m, alt.skip(0), o2, fl) implies can_derive_alt(
            m,
            alt,
            result@ + o2,
            fl,
        ) by {
            assert(result@ + o2 =~= o2);
        }
        assert(alt_text(alt.take(0)) =~= Seq::<char>::empty());
        assert(result@ =~= alt_text(alt.take(0)));
    }
    while j < alternative.len()
        invariant
            rules.wf(),
            m == rules@,
            0 <= j <= alt.len(),
            alt == alternative.deep_view(),
            alt.len() == alternative@.len(),
            fl == fuel as nat + 1,
            rw == rewrite.deep_view(),
            0 < rw.len(),
            0 <= chosen < rw.len(),
            alt == rw[chosen as int],
            forall|o2: Seq<char>| #[trigger] can_derive_alt(m, alt.skip(j as int), o2, fl)
                ==> can_derive_alt(m, alt, result@ + o2, fl),
            alt_terminal_only(alt) ==> result@ == alt_text(alt.take(j as int)),
        decreases alt.len() - j,
    {
        let ghost prev = result@;
        proof {
            assert(alt.skip(j as int)[0] == alt[j as int]);
            assert(alt.skip(j as int).drop_first() =~= alt.skip(j as int + 1));
        }
        let piece = match generate_symbol(&alternative[j], rules, fuel) {
            Ok(piece) => piece,
            Err(e) => {
                proof {
                    if rules_closed(m) && rewrite_closed(rw, m.dom()) {
                        assert(alternative_closed(rw[chosen as int], m.dom()));
                        assert(symbol_closed(alt[j as int], m.dom()));
                    }
                    if rw.len() == 1 && alt_terminal_only(rw[0]) {
                        assert(alt == rw[0]);
                        assert(alt[j as int] is Terminal);
                        assert(false);
                    }
                }
                return Err(e);
            },
        };
        proof {
            let s = piece@;
            assert forall|o2: Seq<char>| #[trigger] can_derive_alt(
                m,
                alt.skip(j as int + 1),
                o2,
                fl,
            ) implies can_derive_alt(m, alt, (prev + s) + o2, fl) by {
                let suf = alt.skip(j as int);
                match alt[j as int] {
                    SymbolModel::Terminal(t) => {
                        assert(s == t);
                        assert((s + o2).take(t.len() as int) =~= t);
                        assert((s + o2).skip(t.len() as int) =~= o2);
                        assert(can_derive_alt(m, suf, s + o2, fl));
                    },
                    SymbolModel::Nonterminal(n) => {
                        let k = s.len() as int;
                        assert((s + o2).take(k) =~= s);
                        assert((s + o2).skip(k) =~= o2);
                        assert(can_derive(m, n, (s + o2).take(k), (fl - 1) as nat));
                        assert(can_derive_alt(m, suf, s + o2, fl));
                    },
                }
                assert(can_derive_alt(m, alt, prev + (s + o2), fl));
                assert((prev + s) + o2 =~= prev + (s + o2));
            }
            if alt_terminal_only(alt) {
                lemma_alt_text_snoc(alt, j as int);
                assert(s == sym_text(alt[j as int]));
            }
        }
        result.append(piece.as_str());
        j = j + 1;
    }
    proof {
        assert(alt.skip(j as int) =~= Seq::<SymbolModel>::empty());
        assert(can_derive_alt(m, alt.skip(j as int), Seq::<char>::empty(), fl));
        assert(can_derive_alt(m, alt, result@ + Seq::<char>::empty(), fl));
        assert(result@ + Seq::<char>::empty() =~= result@);
        assert(can_derive_alt(m, alt, result@, fl));
        assert(alt.take(j as int) =~= alt);
    }
    Ok(result)
}

/// Expands one symbol: a terminal is its own text, a nonterminal is
/// expanded by its rule, costing one level of depth; with no depth
/// left, the expansion fails with `RecursionLimit`.
fn generate_symbol(symbol: &Symbol, rules: &RuleMap, fuel: u64) -> (r: GenResult)
    requires
        rules.wf(),
    ensures
        ({
            let m = rules@;
            &&& (match symbol.deep_view() {
                SymbolModel::Terminal(t) => r matches Ok(out) && out@ == t,
                SymbolModel::Nonterminal(n) => {
                    &&& (r matches Ok(out) ==> can_derive(m, n, out@, fuel as nat))
                    &&& (fuel == 0 ==> (r matches Err(e)
                        && e.deep_view() is RecursionLimit))
                    &&& (fuel > 0 && !m.contains_key(n) ==> (r matches Err(e) && e.deep_view()
                        == GenerateErrorTypeModel::UndefinedNonterminal(n)))
                    &&& (rules_closed(m) && m.contains_key(n) ==> !(r matches Err(e)
                        && e.deep_view() is UndefinedNonterminal))
                },
            })
            &&& (match r {
                Err(e) => match e.deep_view() {
                    GenerateErrorTypeModel::UndefinedNonterminal(nm) => !m.contains_key(nm),
                    GenerateErrorTypeModel::RecursionLimit => true,
                },
                Ok(_) => true,
            })
        }),
    decreases fuel, 0int,
{
    match symbol {
        Symbol::Terminal(t) => Ok(t.clone()),
        Symbol::Nonterminal(n) => {
            if fuel == 0 {
                Err(GenerateErrorType::RecursionLimit)
            } else {
                generate_nonterminal(n, rules, fuel - 1)
            }
        },
    }
}

/// Generates one sentence from the grammar's own start symbol.
pub fn generate(grammar: &Grammar) -> (r: GenResult)
    requires
        grammar.rules.wf(),
    ensures
        gen_post(grammar.rules@, grammar.start_symbol@, r, MAX_EXPANSION_DEPTH as nat),
{
    generate_nonterminal(&grammar.start_symbol, &grammar.rules, MAX_EXPANSION_DEPTH)
}

/// Generates one sentence from the given start symbol instead of the
/// grammar's own. The override is looked up like any nonterminal, so an
/// unknown name fails with `UndefinedNonterminal`.
pub fn generate_with_override(grammar: &Grammar, start: &String) -> (r: GenResult)
    requires
        grammar.rules.wf(),
    ensures
        gen_post(grammar.rules@, start@, r, MAX_EXPANSION_DEPTH as nat),
{
    generate_nonterminal(start, &grammar.rules, MAX_EXPANSION_DEPTH)
}

/// Generation is deterministic on a rule whose single alternative holds
/// only terminals: any two attempts, whatever their random choices or
/// depth budgets, yield the same sentence.
pub proof fn lemma_generation_deterministic(
    m: Map<Seq<char>, RewriteModel>,
    name: Seq<char>,
    r1: GenResult,
    r2: GenResult,
    fuel1: nat,
    fuel2: nat,
)
    requires
        gen_post(m, name, r1, fuel1),
        gen_post(m, name, r2, fuel2),
        m.contains_key(name),
        m[name].len() == 1,
        alt_terminal_only(m[name][0]),
    ensures
        r1 matches Ok(out1) && out1@ == alt_text(m[name][0]),
        r2 matches Ok(out2) && out2@ == alt_text(m[name][0]),
{
}

/// Generating from a nonterminal whose rule has exactly one alternative
/// and that alternative is empty yields the empty sentence.
pub proof fn lemma_empty_alternative_yields_empty(
    m: Map<Seq<char>, RewriteModel>,
    name: Seq<char>,
    r: GenResult,
    fuel: nat,
)
    requires
        gen_post(m, name, r, fuel),
        m.contains_key(name),
        m[name].len() == 1,
        m[name][0].len() == 0,
    ensures
        r matches Ok(out) && out@ == Seq::<char>::empty(),
{
    assert(alt_terminal_only(m[name][0]));
    assert(alt_text(m[name][0]) == Seq::<char>::empty());
}

} // verus!
