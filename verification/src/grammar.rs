//! Grammars: symbols, alternatives, rewrites, and the compiled rule table.
//!
//! A [`Grammar`] is a start symbol plus a [`RuleMap`] from nonterminal
//! names to their rewrites. A well-formed grammar is closed: every
//! nonterminal referenced anywhere in it is itself defined.

use vstd::prelude::*;

verus! {

/// The base unit in a grammar rule: literal text emitted verbatim, or a
/// reference to another rule, resolved by name at generation time.
#[derive(Debug, PartialEq)]
pub enum Symbol {
    /// Literal text, emitted as-is.
    Terminal(String),
    /// A reference to the rule of the named nonterminal.
    Nonterminal(String),
}

/// The mathematical value of a [`Symbol`]: the same two cases over
/// character sequences.
pub enum SymbolModel {
    /// Literal text, emitted as-is.
    Terminal(Seq<char>),
    /// A reference to the rule of the named nonterminal.
    Nonterminal(Seq<char>),
}

impl DeepView for Symbol {
    type V = SymbolModel;

    open spec fn deep_view(&self) -> SymbolModel {
        match self {
            Symbol::Terminal(t) => SymbolModel::Terminal(t@),
            Symbol::Nonterminal(n) => SymbolModel::Nonterminal(n@),
        }
    }
}

/// The symbols of one alternative, in concatenation order. An empty
/// alternative is the epsilon production.
pub type Alternative = Vec<Symbol>;

/// The alternatives of one rewrite rule, in declaration order.
pub type Rewrite = Vec<Alternative>;

/// The mathematical value of an [`Alternative`].
pub type AlternativeModel = Seq<SymbolModel>;

/// The mathematical value of a [`Rewrite`].
pub type RewriteModel = Seq<AlternativeModel>;

/// One named entry of a rule table.
pub type EntryModel = (Seq<char>, RewriteModel);

/// The map built from a sequence of entries taken left to right, a later
/// entry with the same name overriding an earlier one.
pub open spec fn map_of_entries(es: Seq<EntryModel>) -> Map<Seq<char>, RewriteModel>
    decreases es.len(),
{
    if es.len() == 0 {
        Map::empty()
    } else {
        map_of_entries(es.drop_last()).insert(es.last().0, es.last().1)
    }
}

/// Whether some entry of `es` bears the name `name`.
pub open spec fn entries_define(es: Seq<EntryModel>, name: Seq<char>) -> bool {
    exists|i: int| 0 <= i < es.len() && es[i].0 == name
}

/// The position of the first entry of `es` named `name`, or `es.len()`
/// if there is none.
pub open spec fn index_of_name(es: Seq<EntryModel>, name: Seq<char>) -> int
    decreases es.len(),
{
    if es.len() == 0 {
        0
    } else if es[0].0 == name {
        0
    } else {
        1 + index_of_name(es.drop_first(), name)
    }
}

/// The keys of `map_of_entries(es)` are exactly the names of `es`.
pub proof fn lemma_map_of_entries_dom(es: Seq<EntryModel>, name: Seq<char>)
    ensures
        map_of_entries(es).contains_key(name) <==> entries_define(es, name),
    decreases es.len(),
{
    if es.len() > 0 {
        lemma_map_of_entries_dom(es.drop_last(), name);
        if entries_define(es.drop_last(), name) {
            let i = choose|i: int| 0 <= i < es.drop_last().len() && es.drop_last()[i].0 == name;
            assert(es[i].0 == name);
        }
        if map_of_entries(es).contains_key(name) {
            assert(entries_define(es, name));
        } else if entries_define(es, name) {
            let i = choose|i: int| 0 <= i < es.len() && es[i].0 == name;
            assert(i < es.len() - 1 ==> es.drop_last()[i].0 == name);
        }
    }
}

/// With no two entries sharing a name, the map's value at a name is the
/// rewrite of the one entry bearing it.
pub proof fn lemma_map_of_entries_at(es: Seq<EntryModel>, i: int)
    requires
        forall|j: int, k: int| 0 <= j < k < es.len() ==> es[j].0 != es[k].0,
        0 <= i < es.len(),
    ensures
        map_of_entries(es).contains_key(es[i].0),
        map_of_entries(es)[es[i].0] == es[i].1,
    decreases es.len(),
{
    if i == es.len() - 1 {
        lemma_map_of_entries_dom(es, es[i].0);
    } else {
        lemma_map_of_entries_at(es.drop_last(), i);
        assert(es.drop_last()[i] == es[i]);
        assert(es.last().0 != es[i].0);
    }
}

/// A rule table: a map from nonterminal names to rewrites, kept as a
/// vector of entries with pairwise distinct names, in insertion order.
#[derive(Debug, PartialEq)]
pub struct RuleMap {
    entries: Vec<(String, Rewrite)>,
}

impl View for RuleMap {
    type V = Map<Seq<char>, RewriteModel>;

    closed spec fn view(&self) -> Map<Seq<char>, RewriteModel> {
        map_of_entries(self.entries.deep_view())
    }
}

impl RuleMap {
    /// The entries in insertion order, as mathematical values.
    pub closed spec fn entry_seq(self) -> Seq<EntryModel> {
        self.entries.deep_view()
    }

    /// No two entries share a name.
    pub open spec fn wf(self) -> bool {
        forall|j: int, k: int|
            0 <= j < k < self.entry_seq().len() ==> self.entry_seq()[j].0 != self.entry_seq()[k].0
    }

    /// The map is the one the entries describe.
    pub proof fn lemma_view(self)
        ensures
            self@ == map_of_entries(self.entry_seq()),
            forall|name: Seq<char>|
                self@.contains_key(name) <==> #[trigger] entries_define(self.entry_seq(), name),
    {
        assert forall|name: Seq<char>|
            self@.contains_key(name) <==> #[trigger] entries_define(
                self.entry_seq(),
                name,
            ) by {
            lemma_map_of_entries_dom(self.entry_seq(), name);
        }
    }

    /// An empty rule table.
    pub fn new() -> (r: RuleMap)
        ensures
            r.wf(),
            r.entry_seq() == Seq::<EntryModel>::empty(),
            r@ == Map::<Seq<char>, RewriteModel>::empty(),
    {
        let r = RuleMap { entries: Vec::new() };
        proof {
            assert(r.entries.deep_view() =~= Seq::<EntryModel>::empty());
        }
        r
    }

    /// How many rules the table holds.
    pub fn len(&self) -> (n: usize)
        ensures
            n == self.entry_seq().len(),
    {
        self.entries.len()
    }

    /// The entry at position `i` of the insertion order.
    pub fn entry_at(&self, i: usize) -> (r: &(String, Rewrite))
        requires
            i < self.entry_seq().len(),
        ensures
            r.deep_view() == self.entry_seq()[i as int],
    {
        &self.entries[i]
    }

    /// The position of the first entry named `symbol`, or the number of
    /// entries if there is none.
    fn find(&self, symbol: &String) -> (i: usize)
        ensures
            i == index_of_name(self.entry_seq(), symbol@),
            i <= self.entry_seq().len(),
            i < self.entry_seq().len() ==> self.entry_seq()[i as int].0 == symbol@,
            forall|j: int| 0 <= j < i ==> self.entry_seq()[j].0 != symbol@,
    {
        let ghost es = self.entry_seq();
        let mut i: usize = 0;
        proof {
            assert(es.skip(0) =~= es);
        }
        while i < self.entries.len()
            invariant
                0 <= i <= es.len(),
                es == self.entry_seq(),
                es.len() == self.entries.len(),
                index_of_name(es, symbol@) == i + index_of_name(es.skip(i as int), symbol@),
                forall|j: int| 0 <= j < i ==> es[j].0 != symbol@,
            decreases es.len() - i,
        {
            proof {
                assert(es[i as int] == self.entries@[i as int].deep_view());
                assert(es[i as int].0 == self.entries@[i as int].0@);
                assert(es.skip(i as int)[0] == es[i as int]);
            }
            if self.entries[i].0 == *symbol {
                proof {
                    assert(index_of_name(es.skip(i as int), symbol@) == 0);
                }
                return i;
            }
            proof {
                assert(es.skip(i as int).drop_first() =~= es.skip(i as int + 1));
            }
            i = i + 1;
        }
        proof {
            assert(es.skip(i as int) =~= Seq::<EntryModel>::empty());
        }
        i
    }

    /// The rewrite defined for `symbol`, if any.
    pub fn get(&self, symbol: &String) -> (r: Option<&Rewrite>)
        requires
            self.wf(),
        ensures
            match r {
                Some(rw) => self@.contains_key(symbol@) && rw.deep_view() == self@[symbol@],
                None => !self@.contains_key(symbol@),
            },
    {
        proof {
            self.lemma_view();
            lemma_index_of_name_defines(self.entry_seq(), symbol@);
        }
        let i = self.find(symbol);
        if i < self.entries.len() {
            proof {
                lemma_map_of_entries_at(self.entry_seq(), i as int);
            }
            Some(&self.entries[i].1)
        } else {
            None
        }
    }

    /// Define `symbol` as `rewrite`, replacing any earlier definition
    /// (the last definition of a symbol wins).
    pub fn insert(&mut self, symbol: String, rewrite: Rewrite)
        requires
            old(self).wf(),
        ensures
            final(self).wf(),
            final(self)@ == old(self)@.insert(symbol@, rewrite.deep_view()),
            final(self).entry_seq() == (if entries_define(old(self).entry_seq(), symbol@) {
                old(self).entry_seq().update(
                    index_of_name(old(self).entry_seq(), symbol@),
                    (symbol@, rewrite.deep_view()),
                )
            } else {
                old(self).entry_seq().push((symbol@, rewrite.deep_view()))
            }),
    {
        proof {
            lemma_index_of_name_defines(old(self).entry_seq(), symbol@);
        }
        let ghost old_es = self.entry_seq();
        let i = self.find(&symbol);
        let ghost sym_view = symbol@;
        let ghost rw_view = rewrite.deep_view();
        if i < self.entries.len() {
            self.entries.set(i, (symbol, rewrite));
            proof {
                assert(self.entry_seq() =~= old_es.update(i as int, (sym_view, rw_view)));
                lemma_map_update_entry(old_es, i as int, rw_view);
            }
        } else {
            self.entries.push((symbol, rewrite));
            proof {
                assert(self.entry_seq() =~= old_es.push((sym_view, rw_view)));
                assert(self.entry_seq().drop_last() =~= old_es);
            }
        }
    }
}

/// `index_of_name` lands on an entry exactly when some entry bears the name.
pub proof fn lemma_index_of_name_defines(es: Seq<EntryModel>, name: Seq<char>)
    ensures
        0 <= index_of_name(es, name) <= es.len(),
        index_of_name(es, name) < es.len() ==> es[index_of_name(es, name)].0 == name,
        entries_define(es, name) <==> index_of_name(es, name) < es.len(),
        forall|j: int| 0 <= j < index_of_name(es, name) ==> es[j].0 != name,
    decreases es.len(),
{
    if es.len() > 0 && es[0].0 != name {
        lemma_index_of_name_defines(es.drop_first(), name);
        let i = index_of_name(es, name);
        assert forall|j: int| 0 <= j < i implies es[j].0 != name by {
            if j > 0 {
                assert(es.drop_first()[j - 1] == es[j]);
            }
        }
        if entries_define(es, name) {
            let k = choose|k: int| 0 <= k < es.len() && es[k].0 == name;
            assert(es.drop_first()[k - 1].0 == name);
        }
        if entries_define(es.drop_first(), name) {
            let k = choose|k: int| 0 <= k < es.drop_first().len() && es.drop_first()[k].0 == name;
            assert(es[k + 1].0 == name);
        }
    }
}

/// Updating the one entry that bears a name changes the entry map the
/// same way an insert does.
proof fn lemma_map_update_entry(es: Seq<EntryModel>, i: int, rw: RewriteModel)
    requires
        forall|j: int, k: int| 0 <= j < k < es.len() ==> es[j].0 != es[k].0,
        0 <= i < es.len(),
    ensures
        map_of_entries(es.update(i, (es[i].0, rw))) == map_of_entries(es).insert(es[i].0, rw),
    decreases es.len(),
{
    let es2 = es.update(i, (es[i].0, rw));
    if i == es.len() - 1 {
        assert(es2.drop_last() =~= es.drop_last());
        assert(map_of_entries(es2) =~= map_of_entries(es).insert(es[i].0, rw));
    } else {
        lemma_map_update_entry(es.drop_last(), i, rw);
        assert(es2.drop_last() =~= es.drop_last().update(i, (es[i].0, rw)));
        assert(es2.last() == es.last());
        assert(map_of_entries(es2) == map_of_entries(es2.drop_last()).insert(
            es.last().0,
            es.last().1,
        ));
        assert(es.last().0 != es[i].0);
        assert(map_of_entries(es.drop_last()).insert(es[i].0, rw).insert(es.last().0, es.last().1)
            =~= map_of_entries(es.drop_last()).insert(es.last().0, es.last().1).insert(
            es[i].0,
            rw,
        ));
    }
}

/// Whether a symbol only references names in `dom`.
pub open spec fn symbol_closed(s: SymbolModel, dom: Set<Seq<char>>) -> bool {
    match s {
        SymbolModel::Terminal(_) => true,
        SymbolModel::Nonterminal(n) => dom.contains(n),
    }
}

/// Whether every symbol of the alternative references only names in `dom`.
pub open spec fn alternative_closed(alt: AlternativeModel, dom: Set<Seq<char>>) -> bool {
    forall|i: int| 0 <= i < alt.len() ==> symbol_closed(#[trigger] alt[i], dom)
}

/// Whether every alternative of the rewrite references only names in `dom`.
pub open spec fn rewrite_closed(rw: RewriteModel, dom: Set<Seq<char>>) -> bool {
    forall|i: int| 0 <= i < rw.len() ==> alternative_closed(#[trigger] rw[i], dom)
}

/// Whether every nonterminal referenced anywhere in the rule table is
/// itself defined in it.
pub open spec fn rules_closed(m: Map<Seq<char>, RewriteModel>) -> bool {
    forall|name: Seq<char>|
        m.contains_key(name) ==> rewrite_closed(#[trigger] m[name], m.dom())
}

/// The compiled grammar: a start symbol plus the rule table. Built by
/// the parser only after the cross-reference check passed, so that a
/// well-formed grammar is closed.
#[derive(Debug, PartialEq)]
pub struct Grammar {
    /// The nonterminal that generation starts from by default.
    pub start_symbol: String,
    /// The rule table.
    pub rules: RuleMap,
}

impl Grammar {
    /// A well-formed grammar: a sound rule table in which every
    /// referenced nonterminal is defined.
    pub open spec fn wf(self) -> bool {
        self.rules.wf() && rules_closed(self.rules@)
    }
}

} // verus!
