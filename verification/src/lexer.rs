//! The lexer: one line of grammar text becomes a sequence of tokens.
//!
//! Scanning goes left to right: `=` and `|` are tokens of their own, a
//! `"` opens a terminal that runs to the next `"` (a missing closing
//! quote fails the line), any other non-whitespace character opens a
//! nonterminal that runs to the next whitespace, and whitespace
//! separates tokens. The function [`spec_lex`] states the whole of it.

use vstd::prelude::*;
use vstd::string::StrSliceExecFns;

use crate::parser::{CompileErrorType, CompileErrorTypeModel};

verus! {

/// A lexical unit of one grammar line.
#[derive(Debug, PartialEq)]
pub enum Token {
    /// The `=` between a rule's nonterminal and its alternatives.
    Equals,
    /// The `|` between two alternatives.
    Or,
    /// A bare word: a reference to (or definition of) a nonterminal.
    Nonterminal(String),
    /// A double-quoted piece of literal text.
    Terminal(String),
}

/// The mathematical value of a [`Token`].
pub enum TokenModel {
    /// The `=` between a rule's nonterminal and its alternatives.
    Equals,
    /// The `|` between two alternatives.
    Or,
    /// A bare word: a reference to (or definition of) a nonterminal.
    Nonterminal(Seq<char>),
    /// A double-quoted piece of literal text.
    Terminal(Seq<char>),
}

impl DeepView for Token {
    type V = TokenModel;

    open spec fn deep_view(&self) -> TokenModel {
        match self {
            Token::Equals => TokenModel::Equals,
            Token::Or => TokenModel::Or,
            Token::Nonterminal(s) => TokenModel::Nonterminal(s@),
            Token::Terminal(s) => TokenModel::Terminal(s@),
        }
    }
}

/// The whitespace that separates tokens: the code points with the
/// Unicode `White_Space` property.
pub open spec fn is_space(c: char) -> bool {
    let n = c as u32;
    ||| n == 0x9
    ||| n == 0xA
    ||| n == 0xB
    ||| n == 0xC
    ||| n == 0xD
    ||| n == 0x20
    ||| n == 0x85
    ||| n == 0xA0
    ||| n == 0x1680
    ||| (0x2000 <= n && n <= 0x200A)
    ||| n == 0x2028
    ||| n == 0x2029
    ||| n == 0x202F
    ||| n == 0x205F
    ||| n == 0x3000
}

/// Relies on char::is_whitespace: true exactly on the code points with
/// the Unicode `White_Space` property, the ones `is_space` lists.
#[verifier::external_body]
fn whitespace_char(c: char) -> (r: bool)
    ensures
        r == is_space(c),
{
    c.is_whitespace()
}

/// The position of the first `"` at or after `i`, or the line's length
/// if there is none.
pub open spec fn scan_quote(s: Seq<char>, i: int) -> int
    decreases s.len() - i,
{
    if i < 0 || i >= s.len() {
        s.len() as int
    } else if s[i] == '"' {
        i
    } else {
        scan_quote(s, i + 1)
    }
}

/// The position of the first whitespace character at or after `i`, or
/// the line's length if there is none.
pub open spec fn scan_space(s: Seq<char>, i: int) -> int
    decreases s.len() - i,
{
    if i < 0 || i >= s.len() {
        s.len() as int
    } else if is_space(s[i]) {
        i
    } else {
        scan_space(s, i + 1)
    }
}

/// Where `scan_quote` can land, and what stands there.
pub proof fn lemma_scan_quote(s: Seq<char>, i: int)
    ensures
        scan_quote(s, i) <= s.len(),
        0 <= i <= s.len() ==> i <= scan_quote(s, i),
        0 <= i && scan_quote(s, i) < s.len() ==> s[scan_quote(s, i)] == '"',
        forall|k: int| 0 <= i <= k < scan_quote(s, i) ==> s[k] != '"',
    decreases s.len() - i,
{
    if 0 <= i < s.len() && s[i] != '"' {
        lemma_scan_quote(s, i + 1);
    }
}

/// Where `scan_space` can land, and what stands there.
pub proof fn lemma_scan_space(s: Seq<char>, i: int)
    ensures
        scan_space(s, i) <= s.len(),
        0 <= i <= s.len() ==> i <= scan_space(s, i),
        0 <= i && scan_space(s, i) < s.len() ==> is_space(s[scan_space(s, i)]),
        forall|k: int| 0 <= i <= k < scan_space(s, i) ==> !is_space(s[k]),
    decreases s.len() - i,
{
    if 0 <= i < s.len() && !is_space(s[i]) {
        lemma_scan_space(s, i + 1);
    }
}

/// `scan_quote` lands exactly on the first `"`.
pub proof fn lemma_scan_quote_at(s: Seq<char>, i: int, j: int)
    requires
        0 <= i <= j <= s.len(),
        forall|k: int| i <= k < j ==> s[k] != '"',
        j < s.len() ==> s[j] == '"',
    ensures
        scan_quote(s, i) == j,
    decreases j - i,
{
    if i < j {
        lemma_scan_quote_at(s, i + 1, j);
    }
}

/// `scan_space` lands exactly on the first whitespace character.
pub proof fn lemma_scan_space_at(s: Seq<char>, i: int, j: int)
    requires
        0 <= i <= j <= s.len(),
        forall|k: int| i <= k < j ==> !is_space(s[k]),
        j < s.len() ==> is_space(s[j]),
    ensures
        scan_space(s, i) == j,
    decreases j - i,
{
    if i < j {
        lemma_scan_space_at(s, i + 1, j);
    }
}

/// `scan_quote` over a suffix is `scan_quote` over the whole, shifted.
pub proof fn lemma_scan_quote_skip(s: Seq<char>, d: int, i: int)
    requires
        0 <= d <= s.len(),
        0 <= i,
    ensures
        scan_quote(s.skip(d), i) == scan_quote(s, d + i) - d,
    decreases s.len() - d - i,
{
    let t = s.skip(d);
    if i < t.len() {
        assert(t[i] == s[d + i]);
        if t[i] != '"' {
            lemma_scan_quote_skip(s, d, i + 1);
        }
    }
}

/// `scan_space` over a suffix is `scan_space` over the whole, shifted.
pub proof fn lemma_scan_space_skip(s: Seq<char>, d: int, i: int)
    requires
        0 <= d <= s.len(),
        0 <= i,
    ensures
        scan_space(s.skip(d), i) == scan_space(s, d + i) - d,
    decreases s.len() - d - i,
{
    let t = s.skip(d);
    if i < t.len() {
        assert(t[i] == s[d + i]);
        if !is_space(t[i]) {
            lemma_scan_space_skip(s, d, i + 1);
        }
    }
}

/// Lexing a suffix of a line is lexing the line from that point on.
pub proof fn lemma_lex_from_skip(s: Seq<char>, d: int, i: int)
    requires
        0 <= d <= s.len(),
        0 <= i,
    ensures
        spec_lex_from(s.skip(d), i) == spec_lex_from(s, d + i),
    decreases s.len() - d - i,
{
    let t = s.skip(d);
    if i >= t.len() {
        assert(d + i >= s.len());
    } else {
        assert(t[i] == s[d + i]);
        let c = t[i];
        if c == '=' || c == '|' {
            lemma_lex_from_skip(s, d, i + 1);
        } else if c == '"' {
            lemma_scan_quote_skip(s, d, i + 1);
            lemma_scan_quote(t, i + 1);
            let j = scan_quote(t, i + 1);
            if j < t.len() {
                assert(t.subrange(i + 1, j) =~= s.subrange(d + i + 1, d + j));
                lemma_lex_from_skip(s, d, j + 1);
            }
        } else if is_space(c) {
            lemma_lex_from_skip(s, d, i + 1);
        } else {
            lemma_scan_space_skip(s, d, i);
            lemma_scan_space(t, i);
            let j = scan_space(t, i);
            assert(t.subrange(i, j) =~= s.subrange(d + i, d + j));
            if j < t.len() {
                lemma_lex_from_skip(s, d, j + 1);
            } else {
                lemma_lex_from_skip(s, d, j);
            }
        }
    }
}

/// `rest` with `t` put in front, a failure staying a failure.
pub open spec fn lex_cons(t: TokenModel, rest: Option<Seq<TokenModel>>) -> Option<
    Seq<TokenModel>,
> {
    match rest {
        Some(ts) => Some(seq![t] + ts),
        None => None,
    }
}

/// `rest` with the tokens `p` put in front, a failure staying a failure.
pub open spec fn lex_concat(p: Seq<TokenModel>, rest: Option<Seq<TokenModel>>) -> Option<
    Seq<TokenModel>,
> {
    match rest {
        Some(ts) => Some(p + ts),
        None => None,
    }
}

/// The tokens of the line `s` from position `i` on, or `None` if a
/// terminal's closing quote is missing.
pub open spec fn spec_lex_from(s: Seq<char>, i: int) -> Option<Seq<TokenModel>>
    decreases s.len() - i,
    via spec_lex_from_dec
{
    if i < 0 || i >= s.len() {
        Some(Seq::empty())
    } else if s[i] == '=' {
        lex_cons(TokenModel::Equals, spec_lex_from(s, i + 1))
    } else if s[i] == '|' {
        lex_cons(TokenModel::Or, spec_lex_from(s, i + 1))
    } else if s[i] == '"' {
        let j = scan_quote(s, i + 1);
        if j >= s.len() {
            None
        } else {
            lex_cons(TokenModel::Terminal(s.subrange(i + 1, j)), spec_lex_from(s, j + 1))
        }
    } else if is_space(s[i]) {
        spec_lex_from(s, i + 1)
    } else {
        let j = scan_space(s, i);
        let next = if j < s.len() {
            j + 1
        } else {
            j
        };
        lex_cons(TokenModel::Nonterminal(s.subrange(i, j)), spec_lex_from(s, next))
    }
}

#[via_fn]
proof fn spec_lex_from_dec(s: Seq<char>, i: int) {
    if 0 <= i < s.len() {
        lemma_scan_quote(s, i + 1);
        lemma_scan_space(s, i);
    }
}

/// The tokens of the whole line `s`, or `None` if a terminal's closing
/// quote is missing.
pub open spec fn spec_lex(s: Seq<char>) -> Option<Seq<TokenModel>> {
    spec_lex_from(s, 0)
}

/// Putting a token in front of the prefix and concatenating is the same
/// as concatenating with the token put in front of the rest.
proof fn lemma_lex_concat_push(p: Seq<TokenModel>, t: TokenModel, rest: Option<Seq<TokenModel>>)
    ensures
        lex_concat(p.push(t), rest) == lex_concat(p, lex_cons(t, rest)),
{
    match rest {
        Some(ts) => {
            assert(p.push(t) + ts =~= p + (seq![t] + ts));
        },
        None => {
        },
    }
}

/// Lexes the terminal that opens at position `start` of the line: the
/// character at `start` is consumed as the opening quote, the text runs
/// to the next `"`, and a line end before that closing quote fails.
pub fn lex_terminal(line: &str, start: usize) -> (r: Result<(Token, usize), CompileErrorType>)
    requires
        start < line@.len(),
    ensures
        ({
            let j = scan_quote(line@, start + 1);
            match r {
                Ok((tok, next)) => j < line@.len() && tok.deep_view() == TokenModel::Terminal(
                    line@.subrange(start + 1, j),
                ) && next == j + 1,
                Err(e) => j >= line@.len() && e.deep_view()
                    == CompileErrorTypeModel::UnmatchedQuote,
            }
        }),
{
    let n = line.unicode_len();
    let mut j: usize = start + 1;
    while j < n && line.get_char(j) != '"'
        invariant
            start + 1 <= j <= n,
            n == line@.len(),
            scan_quote(line@, start + 1) == scan_quote(line@, j as int),
        decreases n - j,
    {
        j = j + 1;
    }
    if j < n {
        let text = line.substring_char(start + 1, j).to_owned();
        Ok((Token::Terminal(text), j + 1))
    } else {
        proof {
            lemma_scan_quote(line@, j as int);
        }
        Err(CompileErrorType::UnmatchedQuote)
    }
}

/// Lexes the nonterminal that starts at position `start` of the line:
/// the word runs to the next whitespace character, which is consumed,
/// or to the end of the line.
pub fn lex_nonterminal(line: &str, start: usize) -> (r: (Token, usize))
    requires
        start <= line@.len(),
    ensures
        ({
            let j = scan_space(line@, start as int);
            r.0.deep_view() == TokenModel::Nonterminal(line@.subrange(start as int, j)) && r.1
                == (if j < line@.len() {
                j + 1
            } else {
                j
            })
        }),
{
    let n = line.unicode_len();
    let mut j: usize = start;
    while j < n && !whitespace_char(line.get_char(j))
        invariant
            start <= j <= n,
            n == line@.len(),
            scan_space(line@, start as int) == scan_space(line@, j as int),
        decreases n - j,
    {
        j = j + 1;
    }
    proof {
        lemma_scan_space(line@, j as int);
    }
    let text = line.substring_char(start, j).to_owned();
    if j < n {
        (Token::Nonterminal(text), j + 1)
    } else {
        (Token::Nonterminal(text), j)
    }
}

/// Lexes one line of grammar text into its tokens, or fails with
/// `UnmatchedQuote` if a terminal's closing quote is missing; in that
/// case the whole line fails, whatever was already lexed.
pub fn lex_line(line: &str) -> (r: Result<Vec<Token>, CompileErrorType>)
    ensures
        match r {
            Ok(tokens) => spec_lex(line@) == Some(tokens.deep_view()),
            Err(e) => spec_lex(line@) is None && e.deep_view()
                == CompileErrorTypeModel::UnmatchedQuote,
        },
{
    let n = line.unicode_len();
    let mut tokens: Vec<Token> = Vec::new();
    let mut i: usize = 0;
    proof {
        assert(tokens.deep_view() =~= Seq::<TokenModel>::empty());
        assert(lex_concat(tokens.deep_view(), spec_lex_from(line@, 0)) == spec_lex_from(line@, 0));
    }
    while i < n
        invariant
            0 <= i <= n,
            n == line@.len(),
            lex_concat(tokens.deep_view(), spec_lex_from(line@, i as int)) == spec_lex(line@),
        decreases n - i,
    {
        let ghost prev = tokens.deep_view();
        let c = line.get_char(i);
        if c == '=' {
            tokens.push(Token::Equals);
            proof {
                assert(tokens.deep_view() =~= prev.push(TokenModel::Equals));
                lemma_lex_concat_push(prev, TokenModel::Equals, spec_lex_from(line@, i + 1));
            }
            i = i + 1;
        } else if c == '|' {
            tokens.push(Token::Or);
            proof {
                assert(tokens.deep_view() =~= prev.push(TokenModel::Or));
                lemma_lex_concat_push(prev, TokenModel::Or, spec_lex_from(line@, i + 1));
            }
            i = i + 1;
        } else if c == '"' {
            match lex_terminal(line, i) {
                Ok((tok, next)) => {
                    proof {
                        lemma_scan_quote(line@, i + 1);
                    }
                    tokens.push(tok);
                    proof {
                        let t = TokenModel::Terminal(
                            line@.subrange(i + 1, scan_quote(line@, i + 1)),
                        );
                        assert(tokens.deep_view() =~= prev.push(t));
                        lemma_lex_concat_push(prev, t, spec_lex_from(line@, next as int));
                    }
                    i = next;
                },
                Err(e) => {
                    return Err(e);
                },
            }
        } else if !whitespace_char(c) {
            let (tok, next) = lex_nonterminal(line, i);
            proof {
                lemma_scan_space(line@, i as int);
            }
            tokens.push(tok);
            proof {
                let t = TokenModel::Nonterminal(line@.subrange(i as int, scan_space(line@, i as int)));
                assert(tokens.deep_view() =~= prev.push(t));
                lemma_lex_concat_push(prev, t, spec_lex_from(line@, next as int));
            }
            i = next;
        } else {
            i = i + 1;
        }
    }
    proof {
        assert(spec_lex_from(line@, i as int) == Some(Seq::<TokenModel>::empty()));
        assert(tokens.deep_view() + Seq::<TokenModel>::empty() =~= tokens.deep_view());
    }
    Ok(tokens)
}

} // verus!
