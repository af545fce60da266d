//! Tokeniser for the grammar description language.
//!
//! Grammar files hold whitespace-separated punctuation, double-quoted
//! terminal literals, nonterminal words and the epsilon glyph.  A character
//! outside those lexemes, or an unterminated literal, is a grammar syntax
//! error.

use vstd::prelude::*;
use vstd::string::StringExecFns;

use crate::strutil::str_to_char_vec;
use crate::strutil::string_from_range;

verus! {

/// A lexeme of the grammar description language, abstractly.
pub ghost enum TokModel {
    Terminal(Seq<char>),
    Nonterminal(Seq<char>),
    LBracket,
    RBracket,
    LBrace,
    RBrace,
    LParen,
    RParen,
    Or,
    Equal,
    Plus,
    Semicolon,
    Asterix,
    Epsilon,
}

/// A lexeme of the grammar description language.
#[derive(Debug)]
pub enum Token {
    Terminal(String),
    Nonterminal(String),
    LBracket,
    RBracket,
    LBrace,
    RBrace,
    LParen,
    RParen,
    Or,
    Equal,
    Plus,
    Semicolon,
    Asterix,
    Epsilon,
}

impl View for Token {
    type V = TokModel;

    open spec fn view(&self) -> TokModel {
        match self {
            Token::Terminal(s) => TokModel::Terminal(s@),
            Token::Nonterminal(s) => TokModel::Nonterminal(s@),
            Token::LBracket => TokModel::LBracket,
            Token::RBracket => TokModel::RBracket,
            Token::LBrace => TokModel::LBrace,
            Token::RBrace => TokModel::RBrace,
            Token::LParen => TokModel::LParen,
            Token::RParen => TokModel::RParen,
            Token::Or => TokModel::Or,
            Token::Equal => TokModel::Equal,
            Token::Plus => TokModel::Plus,
            Token::Semicolon => TokModel::Semicolon,
            Token::Asterix => TokModel::Asterix,
            Token::Epsilon => TokModel::Epsilon,
        }
    }
}

/// Whitespace between lexemes.
pub open spec fn is_ws(c: char) -> bool {
    c == ' ' || c == '\n' || c == '\t' || c == '\r'
}

/// A character of a nonterminal word.
pub open spec fn is_word_char(c: char) -> bool {
    ('a' <= c && c <= 'z') || ('A' <= c && c <= 'Z') || ('0' <= c && c <= '9') || c == '_'
}

/// A character that may begin a nonterminal word: a letter or an
/// underscore, but not a digit.
pub open spec fn is_word_start(c: char) -> bool {
    ('a' <= c && c <= 'z') || ('A' <= c && c <= 'Z') || c == '_'
}

/// A well-formed lexeme: terminal literals hold no quote, nonterminal
/// words are nonempty and made of word characters.
pub open spec fn token_wf(t: TokModel) -> bool {
    match t {
        TokModel::Terminal(s) => forall|i: int| 0 <= i < s.len() ==> s[i] != '"',
        TokModel::Nonterminal(s) => s.len() > 0 && forall|i: int|
            0 <= i < s.len() ==> is_word_char(#[trigger] s[i]),
        _ => true,
    }
}

/// Abstract values of a token vector.
pub open spec fn toks_view(ts: Seq<Token>) -> Seq<TokModel> {
    ts.map_values(|t: Token| t@)
}

/// Characters until the closing quote: the distance from `j` to the
/// first quote at or after it (to the end where none follows).
pub open spec fn quote_ofs(s: Seq<char>, j: int) -> nat
    decreases s.len() - j,
{
    if j < 0 || j >= s.len() || s[j] == '"' {
        0
    } else {
        (1 + quote_ofs(s, j + 1)) as nat
    }
}

/// Characters until the end of a word: the distance from `j` to the
/// first non-word character at or after it.
pub open spec fn word_ofs(s: Seq<char>, j: int) -> nat
    decreases s.len() - j,
{
    if j < 0 || j >= s.len() || !is_word_char(s[j]) {
        0
    } else {
        (1 + word_ofs(s, j + 1)) as nat
    }
}

/// Prepend a lexeme to the rest of a lexing, keeping failure.
pub open spec fn lex_cons(t: TokModel, rest: Option<Seq<TokModel>>) -> Option<Seq<TokModel>> {
    match rest {
        Some(ts) => Some(seq![t].add(ts)),
        None => None,
    }
}

/// The lexemes of the input from position `i` on: whitespace is skipped,
/// punctuation and the epsilon glyph are single lexemes, a quote opens a
/// terminal literal running to the next quote (failing where none
/// follows), a word character opens a nonterminal word, and any other
/// character fails the lexing.
pub open spec fn spec_lex(s: Seq<char>, i: int) -> Option<Seq<TokModel>>
    decreases s.len() - i,
{
    if i < 0 || i >= s.len() {
        Some(Seq::empty())
    } else {
        let c = s[i];
        if is_ws(c) {
            spec_lex(s, i + 1)
        } else if c == ';' {
            lex_cons(TokModel::Semicolon, spec_lex(s, i + 1))
        } else if c == '\u{03b5}' {
            lex_cons(TokModel::Epsilon, spec_lex(s, i + 1))
        } else if c == '+' {
            lex_cons(TokModel::Plus, spec_lex(s, i + 1))
        } else if c == '*' {
            lex_cons(TokModel::Asterix, spec_lex(s, i + 1))
        } else if c == '=' {
            lex_cons(TokModel::Equal, spec_lex(s, i + 1))
        } else if c == '|' {
            lex_cons(TokModel::Or, spec_lex(s, i + 1))
        } else if c == '(' {
            lex_cons(TokModel::LParen, spec_lex(s, i + 1))
        } else if c == ')' {
            lex_cons(TokModel::RParen, spec_lex(s, i + 1))
        } else if c == '{' {
            lex_cons(TokModel::LBrace, spec_lex(s, i + 1))
        } else if c == '}' {
            lex_cons(TokModel::RBrace, spec_lex(s, i + 1))
        } else if c == '[' {
            lex_cons(TokModel::LBracket, spec_lex(s, i + 1))
        } else if c == ']' {
            lex_cons(TokModel::RBracket, spec_lex(s, i + 1))
        } else if c == '"' {
            let e = i + 1 + quote_ofs(s, i + 1) as int;
            if e >= s.len() {
                None
            } else {
                lex_cons(TokModel::Terminal(s.subrange(i + 1, e)), spec_lex(s, e + 1))
            }
        } else if is_word_start(c) {
            let e0 = i + 1 + word_ofs(s, i + 1) as int;
            let e = if e0 <= s.len() {
                e0
            } else {
                s.len() as int
            };
            lex_cons(TokModel::Nonterminal(s.subrange(i, e)), spec_lex(s, e))
        } else {
            None
        }
    }
}

/// Lexemes already read, then the rest of a lexing.
pub open spec fn lex_app(done: Seq<TokModel>, rest: Option<Seq<TokModel>>) -> Option<
    Seq<TokModel>,
> {
    match rest {
        Some(ts) => Some(done.add(ts)),
        None => None,
    }
}

/// Reading one more lexeme moves it from the rest to the done side.
proof fn lemma_lex_step(done: Seq<TokModel>, t: TokModel, rest: Option<Seq<TokModel>>)
    ensures
        lex_app(done, lex_cons(t, rest)) == lex_app(done.push(t), rest),
{
    match rest {
        Some(ts) => {
            assert(done.add(seq![t].add(ts)) =~= done.push(t).add(ts));
        },
        None => {},
    }
}

/// The scanned stretch before the first quote determines `quote_ofs`.
proof fn lemma_quote_ofs_eq(s: Seq<char>, a: int, j: int)
    requires
        0 <= a <= j <= s.len(),
        forall|k: int| a <= k < j ==> s[k] != '"',
        j == s.len() || s[j] == '"',
    ensures
        a + quote_ofs(s, a) == j,
    decreases j - a,
{
    if a < j {
        lemma_quote_ofs_eq(s, a + 1, j);
    }
}

/// The scanned stretch of word characters determines `word_ofs`.
proof fn lemma_word_ofs_eq(s: Seq<char>, a: int, j: int)
    requires
        0 <= a <= j <= s.len(),
        forall|k: int| a <= k < j ==> is_word_char(#[trigger] s[k]),
        j == s.len() || !is_word_char(s[j]),
    ensures
        a + word_ofs(s, a) == j,
    decreases j - a,
{
    if a < j {
        lemma_word_ofs_eq(s, a + 1, j);
    }
}

/// Split a grammar description into lexemes.
///
/// Succeeds exactly when the input lexes, and then returns exactly the
/// lexemes of the input; it fails on an unterminated terminal literal or
/// on a character that begins no lexeme.
pub fn tokenize(input: &str) -> (r: Result<Vec<Token>, String>)
    ensures
        r is Ok <==> spec_lex(input@, 0) is Some,
        r matches Ok(ts) ==> Some(toks_view(ts@)) == spec_lex(input@, 0),
        r matches Ok(ts) ==> forall|i: int|
            0 <= i < ts@.len() ==> token_wf(#[trigger] toks_view(ts@)[i]),
{
    let chars = str_to_char_vec(input);
    let ghost full = spec_lex(input@, 0);
    let n = chars.len();
    let mut ts: Vec<Token> = Vec::new();
    let mut i: usize = 0;
    proof {
        match full {
            Some(ts0) => {
                assert(toks_view(ts@).add(ts0) =~= ts0);
            },
            None => {},
        }
        assert(lex_app(toks_view(ts@), spec_lex(chars@, 0)) == full);
    }
    while i < n
        invariant
            chars@ == input@,
            full == spec_lex(input@, 0),
            n == chars@.len(),
            i <= n,
            forall|k: int| 0 <= k < ts@.len() ==> token_wf(#[trigger] toks_view(ts@)[k]),
            lex_app(toks_view(ts@), spec_lex(chars@, i as int)) == full,
        decreases n - i,
    {
        let ghost ts0 = ts@;
        let ghost rest_here = spec_lex(chars@, i as int);
        let c = chars[i];
        if c == ' ' || c == '\n' || c == '\t' || c == '\r' {
            proof {
                assert(rest_here == spec_lex(chars@, i + 1));
            }
            i += 1;
        } else if c == ';' {
            ts.push(Token::Semicolon);
            proof {
                assert(rest_here == lex_cons(TokModel::Semicolon, spec_lex(chars@, i + 1)));
                lemma_lex_step(toks_view(ts0), TokModel::Semicolon, spec_lex(chars@, i + 1));
                assert(toks_view(ts@) =~= toks_view(ts0).push(TokModel::Semicolon));
            }
            i += 1;
        } else if c == '\u{03b5}' {
            ts.push(Token::Epsilon);
            proof {
                assert(rest_here == lex_cons(TokModel::Epsilon, spec_lex(chars@, i + 1)));
                lemma_lex_step(toks_view(ts0), TokModel::Epsilon, spec_lex(chars@, i + 1));
                assert(toks_view(ts@) =~= toks_view(ts0).push(TokModel::Epsilon));
            }
            i += 1;
        } else if c == '+' {
            ts.push(Token::Plus);
            proof {
                assert(rest_here == lex_cons(TokModel::Plus, spec_lex(chars@, i + 1)));
                lemma_lex_step(toks_view(ts0), TokModel::Plus, spec_lex(chars@, i + 1));
                assert(toks_view(ts@) =~= toks_view(ts0).push(TokModel::Plus));
            }
            i += 1;
        } else if c == '*' {
            ts.push(Token::Asterix);
            proof {
                assert(rest_here == lex_cons(TokModel::Asterix, spec_lex(chars@, i + 1)));
                lemma_lex_step(toks_view(ts0), TokModel::Asterix, spec_lex(chars@, i + 1));
                assert(toks_view(ts@) =~= toks_view(ts0).push(TokModel::Asterix));
            }
            i += 1;
        } else if c == '=' {
            ts.push(Token::Equal);
            proof {
                assert(rest_here == lex_cons(TokModel::Equal, spec_lex(chars@, i + 1)));
                lemma_lex_step(toks_view(ts0), TokModel::Equal, spec_lex(chars@, i + 1));
                assert(toks_view(ts@) =~= toks_view(ts0).push(TokModel::Equal));
            }
            i += 1;
        } else if c == '|' {
            ts.push(Token::Or);
            proof {
                assert(rest_here == lex_cons(TokModel::Or, spec_lex(chars@, i + 1)));
                lemma_lex_step(toks_view(ts0), TokModel::Or, spec_lex(chars@, i + 1));
                assert(toks_view(ts@) =~= toks_view(ts0).push(TokModel::Or));
            }
            i += 1;
        } else if c == '(' {
            ts.push(Token::LParen);
            proof {
                assert(rest_here == lex_cons(TokModel::LParen, spec_lex(chars@, i + 1)));
                lemma_lex_step(toks_view(ts0), TokModel::LParen, spec_lex(chars@, i + 1));
                assert(toks_view(ts@) =~= toks_view(ts0).push(TokModel::LParen));
            }
            i += 1;
        } else if c == ')' {
            ts.push(Token::RParen);
            proof {
                assert(rest_here == lex_cons(TokModel::RParen, spec_lex(chars@, i + 1)));
                lemma_lex_step(toks_view(ts0), TokModel::RParen, spec_lex(chars@, i + 1));
                assert(toks_view(ts@) =~= toks_view(ts0).push(TokModel::RParen));
            }
            i += 1;
        } else if c == '{' {
            ts.push(Token::LBrace);
            proof {
                assert(rest_here == lex_cons(TokModel::LBrace, spec_lex(chars@, i + 1)));
                lemma_lex_step(toks_view(ts0), TokModel::LBrace, spec_lex(chars@, i + 1));
                assert(toks_view(ts@) =~= toks_view(ts0).push(TokModel::LBrace));
            }
            i += 1;
        } else if c == '}' {
            ts.push(Token::RBrace);
            proof {
                assert(rest_here == lex_cons(TokModel::RBrace, spec_lex(chars@, i + 1)));
                lemma_lex_step(toks_view(ts0), TokModel::RBrace, spec_lex(chars@, i + 1));
                assert(toks_view(ts@) =~= toks_view(ts0).push(TokModel::RBrace));
            }
            i += 1;
        } else if c == '[' {
            ts.push(Token::LBracket);
            proof {
                assert(rest_here == lex_cons(TokModel::LBracket, spec_lex(chars@, i + 1)));
                lemma_lex_step(toks_view(ts0), TokModel::LBracket, spec_lex(chars@, i + 1));
                assert(toks_view(ts@) =~= toks_view(ts0).push(TokModel::LBracket));
            }
            i += 1;
        } else if c == ']' {
            ts.push(Token::RBracket);
            proof {
                assert(rest_here == lex_cons(TokModel::RBracket, spec_lex(chars@, i + 1)));
                lemma_lex_step(toks_view(ts0), TokModel::RBracket, spec_lex(chars@, i + 1));
                assert(toks_view(ts@) =~= toks_view(ts0).push(TokModel::RBracket));
            }
            i += 1;
        } else if c == '"' {
            let mut j = i + 1;
            while j < n && chars[j] != '"'
                invariant
                    n == chars@.len(),
                    i + 1 <= j <= n,
                    forall|k: int| i + 1 <= k < j ==> chars@[k] != '"',
                decreases n - j,
            {
                j += 1;
            }
            proof {
                lemma_quote_ofs_eq(chars@, i + 1, j as int);
            }
            if j == n {
                proof {
                    assert(rest_here is None);
                    assert(full is None);
                }
                return Err("grammar syntax error: unterminated terminal literal".to_owned());
            }
            let lit = string_from_range(&chars, i + 1, j);
            proof {
                assert forall|k: int| 0 <= k < lit@.len() implies lit@[k] != '"' by {
                    assert(lit@[k] == chars@[i + 1 + k]);
                }
            }
            let ghost tok = TokModel::Terminal(lit@);
            ts.push(Token::Terminal(lit));
            proof {
                assert(token_wf(ts@.last()@));
                assert(rest_here == lex_cons(tok, spec_lex(chars@, j + 1)));
                lemma_lex_step(toks_view(ts0), tok, spec_lex(chars@, j + 1));
                assert(toks_view(ts@) =~= toks_view(ts0).push(tok));
            }
            i = j + 1;
        } else if ('a' <= c && c <= 'z') || ('A' <= c && c <= 'Z') || c == '_' {
            let mut j = i + 1;
            while j < n && (('a' <= chars[j] && chars[j] <= 'z') || ('A' <= chars[j]
                && chars[j] <= 'Z') || ('0' <= chars[j] && chars[j] <= '9') || chars[j] == '_')
                invariant
                    n == chars@.len(),
                    i + 1 <= j <= n,
                    forall|k: int| i <= k < j ==> is_word_char(#[trigger] chars@[k]),
                decreases n - j,
            {
                j += 1;
            }
            proof {
                lemma_word_ofs_eq(chars@, i + 1, j as int);
            }
            let word = string_from_range(&chars, i, j);
            proof {
                assert(is_word_char(chars@[i as int]));
                assert forall|k: int| 0 <= k < word@.len() implies is_word_char(
                    #[trigger] word@[k],
                ) by {
                    assert(word@[k] == chars@[i + k]);
                }
                assert(word@.len() > 0);
            }
            let ghost tok = TokModel::Nonterminal(word@);
            ts.push(Token::Nonterminal(word));
            proof {
                assert(token_wf(ts@.last()@));
                assert(rest_here == lex_cons(tok, spec_lex(chars@, j as int)));
                lemma_lex_step(toks_view(ts0), tok, spec_lex(chars@, j as int));
                assert(toks_view(ts@) =~= toks_view(ts0).push(tok));
            }
            i = j;
        } else {
            proof {
                assert(rest_here is None);
                assert(full is None);
            }
            return Err("grammar syntax error: unexpected character".to_owned());
        }
        proof {
            assert forall|k: int| 0 <= k < ts@.len() implies token_wf(
                #[trigger] toks_view(ts@)[k],
            ) by {
                assert(toks_view(ts@)[k] == ts@[k]@);
                if k < ts0.len() {
                    assert(ts@[k] == ts0[k]);
                    assert(token_wf(toks_view(ts0)[k]));
                    assert(toks_view(ts0)[k] == ts0[k]@);
                } else {
                    assert(k == ts@.len() - 1);
                    assert(ts@[k] == ts@.last());
                }
            }
        }
    }
    proof {
        assert(spec_lex(chars@, i as int) == Some(Seq::<TokModel>::empty()));
        assert(toks_view(ts@).add(Seq::<TokModel>::empty()) =~= toks_view(ts@));
    }
    Ok(ts)
}

} // verus!
