//! Recursive-descent parser for the grammar description language.
//!
//! Builds an EBNF grammar from the tokens of a grammar file.  Alternation
//! is right-associative and flattened, concatenation binds tighter than
//! alternation, and the unary postfix operators bind tightest.

use vstd::prelude::*;
use vstd::string::StringExecFns;

use crate::grammar::ebnf_view;
use crate::grammar::ebnf_views;
use crate::grammar::lemma_ebnf_views;
use crate::grammar::EbnfModel;
use crate::grammar::GrammarEBNF;
use crate::grammar::EBNF;
use crate::tokeniser::TokModel;
use crate::tokeniser::Token;
use crate::tokeniser::toks_view;

verus! {

/// Append an alternative model, splicing a flattened alternation.
pub open spec fn splice_or_m(acc: Seq<EbnfModel>, e: EbnfModel) -> Seq<EbnfModel> {
    acc.add(
        match e {
            EbnfModel::Or(cs) => cs,
            m => seq![m],
        },
    )
}

/// Append a concatenation item model, splicing a flattened concatenation.
pub open spec fn splice_cat_m(acc: Seq<EbnfModel>, e: EbnfModel) -> Seq<EbnfModel> {
    acc.add(
        match e {
            EbnfModel::Concat(cs) => cs,
            m => seq![m],
        },
    )
}

/// One term of the meta-grammar: a parenthesised, optional or iterated
/// group, a nonterminal, a terminal, or epsilon.  Yields the parsed
/// expression (failure as `None`) and the cursor after it.
pub open spec fn sp_term(ts: Seq<TokModel>, pos: int) -> (Option<EbnfModel>, int)
    decreases ts.len() - pos, 0int,
{
    if pos < 0 || pos >= ts.len() {
        (None, pos)
    } else {
        match ts[pos] {
            TokModel::LParen => {
                let r = sp_rhs(ts, pos + 1);
                match r.0 {
                    Some(e) => if r.1 < ts.len() {
                        if ts[r.1] is RParen {
                            (Some(e), r.1 + 1)
                        } else {
                            (None, r.1 + 1)
                        }
                    } else {
                        (None, r.1)
                    },
                    None => (None, r.1),
                }
            },
            TokModel::LBracket => {
                let r = sp_rhs(ts, pos + 1);
                match r.0 {
                    Some(e) => if r.1 < ts.len() {
                        if ts[r.1] is RBracket {
                            (Some(EbnfModel::Optional(Box::new(e))), r.1 + 1)
                        } else {
                            (None, r.1 + 1)
                        }
                    } else {
                        (None, r.1)
                    },
                    None => (None, r.1),
                }
            },
            TokModel::LBrace => {
                let r = sp_rhs(ts, pos + 1);
                match r.0 {
                    Some(e) => if r.1 < ts.len() {
                        if ts[r.1] is RBrace {
                            (Some(EbnfModel::Iteration(Box::new(e))), r.1 + 1)
                        } else {
                            (None, r.1 + 1)
                        }
                    } else {
                        (None, r.1)
                    },
                    None => (None, r.1),
                }
            },
            TokModel::Nonterminal(n) => (Some(EbnfModel::Non(n)), pos + 1),
            TokModel::Terminal(t) => (Some(EbnfModel::Term(t)), pos + 1),
            TokModel::Epsilon => (Some(EbnfModel::Eps), pos + 1),
            _ => (None, pos),
        }
    }
}

/// A factor: a term with an optional postfix `*` or `+`.
pub open spec fn sp_factor(ts: Seq<TokModel>, pos: int) -> (Option<EbnfModel>, int)
    decreases ts.len() - pos, 1int,
{
    let t = sp_term(ts, pos);
    match t.0 {
        Some(e) => if t.1 < ts.len() {
            match ts[t.1] {
                TokModel::Asterix => (Some(EbnfModel::Iteration(Box::new(e))), t.1 + 1),
                TokModel::Plus => (Some(EbnfModel::OneOrMore(Box::new(e))), t.1 + 1),
                _ => (Some(e), t.1),
            }
        } else {
            (None, t.1)
        },
        None => (None, t.1),
    }
}

/// The factors following the first one, up to a semicolon, the end of the
/// tokens, or a factor that does not parse.
pub open spec fn sp_cat_rest(ts: Seq<TokModel>, pos: int, acc: Seq<EbnfModel>) -> (
    Seq<EbnfModel>,
    int,
)
    decreases ts.len() - pos, 2int,
{
    if pos < 0 || pos >= ts.len() || ts[pos] is Semicolon {
        (acc, pos)
    } else {
        let f = sp_factor(ts, pos);
        match f.0 {
            Some(e) => if f.1 > pos && f.1 <= ts.len() {
                sp_cat_rest(ts, f.1, splice_cat_m(acc, e))
            } else {
                (acc, pos)
            },
            None => (acc, f.1),
        }
    }
}

/// A concatenation: as many factors as stand before the semicolon,
/// flattened into one sequence.
pub open spec fn sp_concat(ts: Seq<TokModel>, pos: int) -> (Option<EbnfModel>, int)
    decreases ts.len() - pos, 3int,
{
    let f = sp_factor(ts, pos);
    match f.0 {
        None => (None, f.1),
        Some(e) => if f.1 >= pos && f.1 <= ts.len() {
            let rest = sp_cat_rest(ts, f.1, splice_cat_m(Seq::empty(), e));
            if rest.0.len() == 1 {
                (Some(rest.0[0]), rest.1)
            } else {
                (Some(EbnfModel::Concat(rest.0)), rest.1)
            }
        } else {
            (None, f.1)
        },
    }
}

/// The alternatives following the first one, each introduced by `|`.
pub open spec fn sp_or_rest(ts: Seq<TokModel>, pos: int, acc: Seq<EbnfModel>) -> (
    Option<Seq<EbnfModel>>,
    int,
)
    decreases ts.len() - pos, 4int,
{
    if pos < 0 || pos >= ts.len() || !(ts[pos] is Or) {
        (Some(acc), pos)
    } else {
        let c = sp_concat(ts, pos + 1);
        match c.0 {
            None => (None, c.1),
            Some(e) => if c.1 > pos && c.1 <= ts.len() {
                sp_or_rest(ts, c.1, splice_or_m(acc, e))
            } else {
                (None, c.1)
            },
        }
    }
}

/// An alternation: concatenations separated by `|`, flattened into one
/// list of alternatives.
pub open spec fn sp_alt(ts: Seq<TokModel>, pos: int) -> (Option<EbnfModel>, int)
    decreases ts.len() - pos, 5int,
{
    let f = sp_concat(ts, pos);
    match f.0 {
        None => (None, f.1),
        Some(e) => if f.1 >= pos && f.1 <= ts.len() {
            let rest = sp_or_rest(ts, f.1, splice_or_m(Seq::empty(), e));
            match rest.0 {
                None => (None, rest.1),
                Some(alts) => if alts.len() == 1 {
                    (Some(alts[0]), rest.1)
                } else {
                    (Some(EbnfModel::Or(alts)), rest.1)
                },
            }
        } else {
            (None, f.1)
        },
    }
}

/// A rule's right-hand side.
pub open spec fn sp_rhs(ts: Seq<TokModel>, pos: int) -> (Option<EbnfModel>, int)
    decreases ts.len() - pos, 6int,
{
    sp_alt(ts, pos)
}

/// One rule: a nonterminal, `=`, a right-hand side and `;`.
pub open spec fn sp_rule(ts: Seq<TokModel>, pos: int) -> (Option<(Seq<char>, EbnfModel)>, int)
    decreases ts.len() - pos, 7int,
{
    if pos < 0 || pos >= ts.len() {
        (None, pos)
    } else {
        match ts[pos] {
            TokModel::Nonterminal(nm) => {
                let p = pos + 1;
                if p >= ts.len() {
                    (None, p)
                } else {
                    let eq = ts[p] is Equal;
                    if !eq {
                        (None, p + 1)
                    } else {
                        let r = sp_rhs(ts, p + 1);
                        match r.0 {
                            None => (None, r.1),
                            Some(e) => if r.1 >= ts.len() {
                                (None, r.1)
                            } else if ts[r.1] is Semicolon {
                                (Some((nm, e)), r.1 + 1)
                            } else {
                                (None, r.1 + 1)
                            },
                        }
                    }
                }
            },
            _ => (None, pos),
        }
    }
}

/// Add an alternative to the named rule of the accumulated list, creating
/// the rule at the end where it is new.
pub open spec fn push_alt_m(
    acc: Seq<(Seq<char>, Seq<EbnfModel>)>,
    nm: Seq<char>,
    e: EbnfModel,
) -> Seq<(Seq<char>, Seq<EbnfModel>)> {
    if exists|i: int| 0 <= i < acc.len() && (#[trigger] acc[i]).0 == nm {
        let i = choose|i: int| 0 <= i < acc.len() && (#[trigger] acc[i]).0 == nm;
        acc.update(i, (nm, acc[i].1.push(e)))
    } else {
        acc.push((nm, seq![e]))
    }
}

/// The whole grammar description: rules until the tokens run out.
pub open spec fn sp_rules(
    ts: Seq<TokModel>,
    pos: int,
    acc: Seq<(Seq<char>, Seq<EbnfModel>)>,
) -> Option<Seq<(Seq<char>, Seq<EbnfModel>)>>
    decreases ts.len() - pos, 8int,
{
    if pos < 0 || pos >= ts.len() {
        Some(acc)
    } else {
        let r = sp_rule(ts, pos);
        match r.0 {
            None => None,
            Some(p) => if r.1 > pos && r.1 <= ts.len() {
                sp_rules(ts, r.1, push_alt_m(acc, p.0, p.1))
            } else {
                None
            },
        }
    }
}

/// Append an alternative, splicing a flattened alternation.
fn splice_or(alts: &mut Vec<EBNF>, e: EBNF)
    ensures
        ebnf_views(final(alts)@) == splice_or_m(ebnf_views(old(alts)@), ebnf_view(e)),
{
    let ghost pre = alts@;
    let ghost ev = ebnf_view(e);
    match e {
        EBNF::Or(mut v) => {
            let ghost vv = v@;
            alts.append(&mut v);
            proof {
                lemma_ebnf_views(pre);
                lemma_ebnf_views(vv);
                lemma_ebnf_views(alts@);
                assert(alts@ == pre.add(vv));
                assert forall|k: int| 0 <= k < alts@.len() implies ebnf_views(alts@)[k]
                    == ebnf_views(pre).add(ebnf_views(vv))[k] by {
                    if k < pre.len() {
                        assert(alts@[k] == pre[k]);
                    } else {
                        assert(alts@[k] == vv[k - pre.len()]);
                    }
                }
                assert(ebnf_views(alts@) =~= ebnf_views(pre).add(ebnf_views(vv)));
            }
        },
        other => {
            alts.push(other);
            proof {
                lemma_ebnf_views(pre);
                lemma_ebnf_views(alts@);
                assert(alts@ == pre.push(alts@.last()));
                assert forall|k: int| 0 <= k < alts@.len() implies ebnf_views(alts@)[k]
                    == ebnf_views(pre).add(seq![ev])[k] by {
                    if k < pre.len() {
                        assert(alts@[k] == pre[k]);
                    }
                }
                assert(ebnf_views(alts@) =~= ebnf_views(pre).add(seq![ev]));
            }
        },
    }
}

/// Append a concatenation item, splicing a flattened concatenation.
fn splice_cat(items: &mut Vec<EBNF>, e: EBNF)
    ensures
        ebnf_views(final(items)@) == splice_cat_m(ebnf_views(old(items)@), ebnf_view(e)),
{
    let ghost pre = items@;
    let ghost ev = ebnf_view(e);
    match e {
        EBNF::Concat(mut v) => {
            let ghost vv = v@;
            items.append(&mut v);
            proof {
                lemma_ebnf_views(pre);
                lemma_ebnf_views(vv);
                lemma_ebnf_views(items@);
                assert(items@ == pre.add(vv));
                assert forall|k: int| 0 <= k < items@.len() implies ebnf_views(items@)[k]
                    == ebnf_views(pre).add(ebnf_views(vv))[k] by {
                    if k < pre.len() {
                        assert(items@[k] == pre[k]);
                    } else {
                        assert(items@[k] == vv[k - pre.len()]);
                    }
                }
                assert(ebnf_views(items@) =~= ebnf_views(pre).add(ebnf_views(vv)));
            }
        },
        other => {
            items.push(other);
            proof {
                lemma_ebnf_views(pre);
                lemma_ebnf_views(items@);
                assert(items@ == pre.push(items@.last()));
                assert forall|k: int| 0 <= k < items@.len() implies ebnf_views(items@)[k]
                    == ebnf_views(pre).add(seq![ev])[k] by {
                    if k < pre.len() {
                        assert(items@[k] == pre[k]);
                    }
                }
                assert(ebnf_views(items@) =~= ebnf_views(pre).add(seq![ev]));
            }
        },
    }
}

/// Parse one term: a parenthesised, optional or iterated group, a
/// nonterminal, a terminal, or epsilon.
fn parse_term(tokens: &Vec<Token>, pos: usize) -> (r: (Result<EBNF, String>, usize))
    requires
        pos <= tokens@.len(),
    ensures
        pos <= r.1 <= tokens@.len(),
        r.0 is Ok ==> r.1 > pos,
        r.1 == sp_term(toks_view(tokens@), pos as int).1,
        (match r.0 {
            Ok(e) => sp_term(toks_view(tokens@), pos as int).0 == Some(ebnf_view(e)),
            Err(_) => sp_term(toks_view(tokens@), pos as int).0 is None,
        }),
    decreases tokens@.len() - pos, 0int,
{
    let ghost tsv = toks_view(tokens@);
    if pos >= tokens.len() {
        return (Err("term expected, found end of grammar".to_owned()), pos);
    }
    proof {
        assert(tsv[pos as int] == tokens@[pos as int]@);
    }
    match &tokens[pos] {
        Token::LParen => {
            let (inner, p2) = parse_rhs(tokens, pos + 1);
            match inner {
                Ok(r) => {
                    if p2 < tokens.len() {
                        proof {
                            assert(tsv[p2 as int] == tokens@[p2 as int]@);
                        }
                        let close = matches!(tokens[p2], Token::RParen);
                        if close {
                            (Ok(r), p2 + 1)
                        } else {
                            (Err("no matching ')' found".to_owned()), p2 + 1)
                        }
                    } else {
                        (Err("no matching ')' found".to_owned()), p2)
                    }
                },
                Err(e) => (Err(e), p2),
            }
        },
        Token::LBracket => {
            let (inner, p2) = parse_rhs(tokens, pos + 1);
            match inner {
                Ok(r) => {
                    if p2 < tokens.len() {
                        proof {
                            assert(tsv[p2 as int] == tokens@[p2 as int]@);
                        }
                        let close = matches!(tokens[p2], Token::RBracket);
                        if close {
                            (Ok(EBNF::Optional(Box::new(r))), p2 + 1)
                        } else {
                            (Err("no matching ']' found".to_owned()), p2 + 1)
                        }
                    } else {
                        (Err("no matching ']' found".to_owned()), p2)
                    }
                },
                Err(e) => (Err(e), p2),
            }
        },
        Token::LBrace => {
            let (inner, p2) = parse_rhs(tokens, pos + 1);
            match inner {
                Ok(r) => {
                    if p2 < tokens.len() {
                        proof {
                            assert(tsv[p2 as int] == tokens@[p2 as int]@);
                        }
                        let close = matches!(tokens[p2], Token::RBrace);
                        if close {
                            (Ok(EBNF::Iteration(Box::new(r))), p2 + 1)
                        } else {
                            (Err("no matching '}' found".to_owned()), p2 + 1)
                        }
                    } else {
                        (Err("no matching '}' found".to_owned()), p2)
                    }
                },
                Err(e) => (Err(e), p2),
            }
        },
        Token::Nonterminal(n) => (Ok(EBNF::Non(n.clone())), pos + 1),
        Token::Terminal(t) => (Ok(EBNF::Term(t.clone())), pos + 1),
        Token::Epsilon => (Ok(EBNF::Epsilon), pos + 1),
        _ => (Err("unexpected token in term".to_owned()), pos),
    }
}

/// Parse a factor: a term with an optional postfix `*` or `+`.
fn parse_factor(tokens: &Vec<Token>, pos: usize) -> (r: (Result<EBNF, String>, usize))
    requires
        pos <= tokens@.len(),
    ensures
        pos <= r.1 <= tokens@.len(),
        r.0 is Ok ==> r.1 > pos,
        r.1 == sp_factor(toks_view(tokens@), pos as int).1,
        (match r.0 {
            Ok(e) => sp_factor(toks_view(tokens@), pos as int).0 == Some(ebnf_view(e)),
            Err(_) => sp_factor(toks_view(tokens@), pos as int).0 is None,
        }),
    decreases tokens@.len() - pos, 1int,
{
    let ghost tsv = toks_view(tokens@);
    let (term, p2) = parse_term(tokens, pos);
    match term {
        Ok(t) => {
            if p2 < tokens.len() {
                proof {
                    assert(tsv[p2 as int] == tokens@[p2 as int]@);
                }
                match &tokens[p2] {
                    Token::Asterix => (Ok(EBNF::Iteration(Box::new(t))), p2 + 1),
                    Token::Plus => (Ok(EBNF::OneOrMore(Box::new(t))), p2 + 1),
                    _ => (Ok(t), p2),
                }
            } else {
                (Err("expected one of '*' or '+', found end of grammar".to_owned()), p2)
            }
        },
        Err(e) => (Err(e), p2),
    }
}

/// Parse a concatenation: as many factors as stand before the semicolon,
/// flattened into one sequence.
fn parse_concatanation(tokens: &Vec<Token>, pos: usize) -> (r: (Result<EBNF, String>, usize))
    requires
        pos <= tokens@.len(),
    ensures
        pos <= r.1 <= tokens@.len(),
        r.0 is Ok ==> r.1 > pos,
        r.1 == sp_concat(toks_view(tokens@), pos as int).1,
        (match r.0 {
            Ok(e) => sp_concat(toks_view(tokens@), pos as int).0 == Some(ebnf_view(e)),
            Err(_) => sp_concat(toks_view(tokens@), pos as int).0 is None,
        }),
    decreases tokens@.len() - pos, 2int,
{
    let ghost tsv = toks_view(tokens@);
    let (first, p2) = parse_factor(tokens, pos);
    match first {
        Ok(f) => {
            let ghost fv = ebnf_view(f);
            let ghost tgt = sp_cat_rest(tsv, p2 as int, splice_cat_m(Seq::empty(), fv));
            let mut items: Vec<EBNF> = Vec::new();
            proof {
                lemma_ebnf_views(items@);
                assert(ebnf_views(items@) =~= Seq::<EbnfModel>::empty());
            }
            splice_cat(&mut items, f);
            let mut p = p2;
            loop
                invariant_except_break
                    pos <= tokens@.len(),
                    tsv == toks_view(tokens@),
                    pos < p <= tokens@.len(),
                    pos < p2 <= tokens@.len(),
                    sp_factor(tsv, pos as int).0 == Some(fv),
                    sp_factor(tsv, pos as int).1 == p2 as int,
                    tgt == sp_cat_rest(tsv, p2 as int, splice_cat_m(Seq::empty(), fv)),
                    tgt == sp_cat_rest(tsv, p as int, ebnf_views(items@)),
                ensures
                    pos < p <= tokens@.len(),
                    pos < p2 <= tokens@.len(),
                    sp_factor(tsv, pos as int).0 == Some(fv),
                    sp_factor(tsv, pos as int).1 == p2 as int,
                    tgt == sp_cat_rest(tsv, p2 as int, splice_cat_m(Seq::empty(), fv)),
                    tgt == (ebnf_views(items@), p as int),
                decreases tokens@.len() - p,
            {
                if p >= tokens.len() {
                    proof {
                        assert(tgt == (ebnf_views(items@), p as int));
                    }
                    break ;
                }
                proof {
                    assert(tsv[p as int] == tokens@[p as int]@);
                }
                let stop = matches!(tokens[p], Token::Semicolon);
                if stop {
                    proof {
                        assert(tgt == (ebnf_views(items@), p as int));
                    }
                    break ;
                }
                let (next, p3) = parse_factor(tokens, p);
                match next {
                    Ok(f2) => {
                        splice_cat(&mut items, f2);
                        p = p3;
                    },
                    Err(_) => {
                        proof {
                            assert(tgt == (ebnf_views(items@), p3 as int));
                        }
                        p = p3;
                        break ;
                    },
                }
            }
            proof {
                lemma_ebnf_views(items@);
                assert(sp_concat(tsv, pos as int).1 == p as int);
            }
            if items.len() == 1 {
                match items.pop() {
                    Some(single) => {
                        proof {
                            lemma_ebnf_views(items@.push(single));
                            assert(ebnf_views(items@.push(single))[0] == ebnf_view(single));
                        }
                        (Ok(single), p)
                    },
                    None => (Err("internal error: empty concatenation".to_owned()), p),
                }
            } else {
                (Ok(EBNF::Concat(items)), p)
            }
        },
        Err(e) => (Err(e), p2),
    }
}

/// Parse an alternation: concatenations separated by `|`, flattened into
/// one list of alternatives.
fn parse_alternation(tokens: &Vec<Token>, pos: usize) -> (r: (Result<EBNF, String>, usize))
    requires
        pos <= tokens@.len(),
    ensures
        pos <= r.1 <= tokens@.len(),
        r.0 is Ok ==> r.1 > pos,
        r.1 == sp_alt(toks_view(tokens@), pos as int).1,
        (match r.0 {
            Ok(e) => sp_alt(toks_view(tokens@), pos as int).0 == Some(ebnf_view(e)),
            Err(_) => sp_alt(toks_view(tokens@), pos as int).0 is None,
        }),
    decreases tokens@.len() - pos, 3int,
{
    let ghost tsv = toks_view(tokens@);
    let (first, p2) = parse_concatanation(tokens, pos);
    match first {
        Ok(f) => {
            let ghost fv = ebnf_view(f);
            let ghost tgt = sp_or_rest(tsv, p2 as int, splice_or_m(Seq::empty(), fv));
            let mut alts: Vec<EBNF> = Vec::new();
            proof {
                lemma_ebnf_views(alts@);
                assert(ebnf_views(alts@) =~= Seq::<EbnfModel>::empty());
            }
            splice_or(&mut alts, f);
            let mut p = p2;
            loop
                invariant_except_break
                    pos <= tokens@.len(),
                    tsv == toks_view(tokens@),
                    pos < p <= tokens@.len(),
                    pos < p2 <= tokens@.len(),
                    sp_concat(tsv, pos as int).0 == Some(fv),
                    sp_concat(tsv, pos as int).1 == p2 as int,
                    sp_alt(tsv, pos as int) == (match tgt.0 {
                        Some(s) => if s.len() == 1 {
                            (Some(s[0]), tgt.1)
                        } else {
                            (Some(EbnfModel::Or(s)), tgt.1)
                        },
                        None => (None, tgt.1),
                    }),
                    tgt == sp_or_rest(tsv, p as int, ebnf_views(alts@)),
                ensures
                    pos < p <= tokens@.len(),
                    tgt == (Some(ebnf_views(alts@)), p as int),
                    sp_alt(tsv, pos as int) == (match tgt.0 {
                        Some(s) => if s.len() == 1 {
                            (Some(s[0]), tgt.1)
                        } else {
                            (Some(EbnfModel::Or(s)), tgt.1)
                        },
                        None => (None, tgt.1),
                    }),
                decreases tokens@.len() - p,
            {
                if p >= tokens.len() {
                    proof {
                        assert(tgt == (Some(ebnf_views(alts@)), p as int));
                    }
                    break ;
                }
                proof {
                    assert(tsv[p as int] == tokens@[p as int]@);
                }
                let bar = matches!(tokens[p], Token::Or);
                if !bar {
                    proof {
                        assert(tgt == (Some(ebnf_views(alts@)), p as int));
                    }
                    break ;
                }
                let (next, p3) = parse_concatanation(tokens, p + 1);
                match next {
                    Ok(f2) => {
                        splice_or(&mut alts, f2);
                        p = p3;
                    },
                    Err(e) => {
                        proof {
                            assert(tgt == (None::<Seq<EbnfModel>>, p3 as int));
                            assert(sp_alt(tsv, pos as int).0 is None);
                            assert(sp_alt(tsv, pos as int).1 == p3 as int);
                        }
                        return (Err(e), p3);
                    },
                }
            }
            proof {
                lemma_ebnf_views(alts@);
            }
            if alts.len() == 1 {
                match alts.pop() {
                    Some(single) => {
                        proof {
                            lemma_ebnf_views(alts@.push(single));
                            assert(ebnf_views(alts@.push(single))[0] == ebnf_view(single));
                        }
                        (Ok(single), p)
                    },
                    None => (Err("internal error: empty alternation".to_owned()), p),
                }
            } else {
                (Ok(EBNF::Or(alts)), p)
            }
        },
        Err(e) => (Err(e), p2),
    }
}

/// Parse a rule's right-hand side.
fn parse_rhs(tokens: &Vec<Token>, pos: usize) -> (r: (Result<EBNF, String>, usize))
    requires
        pos <= tokens@.len(),
    ensures
        pos <= r.1 <= tokens@.len(),
        r.0 is Ok ==> r.1 > pos,
        r.1 == sp_rhs(toks_view(tokens@), pos as int).1,
        (match r.0 {
            Ok(e) => sp_rhs(toks_view(tokens@), pos as int).0 == Some(ebnf_view(e)),
            Err(_) => sp_rhs(toks_view(tokens@), pos as int).0 is None,
        }),
    decreases tokens@.len() - pos, 4int,
{
    parse_alternation(tokens, pos)
}

/// Parse one rule: a nonterminal, `=`, a right-hand side and `;`.
fn parse_rule(tokens: &Vec<Token>, pos: usize) -> (r: (Result<(String, EBNF), String>, usize))
    requires
        pos <= tokens@.len(),
    ensures
        pos <= r.1 <= tokens@.len(),
        r.0 is Ok ==> r.1 > pos,
        r.1 == sp_rule(toks_view(tokens@), pos as int).1,
        (match r.0 {
            Ok(p) => sp_rule(toks_view(tokens@), pos as int).0 == Some((p.0@, ebnf_view(p.1))),
            Err(_) => sp_rule(toks_view(tokens@), pos as int).0 is None,
        }),
    decreases tokens@.len() - pos, 5int,
{
    let ghost tsv = toks_view(tokens@);
    if pos >= tokens.len() {
        return (Err("nonterminal on lhs of rule expected".to_owned()), pos);
    }
    proof {
        assert(tsv[pos as int] == tokens@[pos as int]@);
    }
    let name = match &tokens[pos] {
        Token::Nonterminal(n) => n.clone(),
        _ => {
            return (Err("nonterminal on lhs of rule expected".to_owned()), pos);
        },
    };
    let mut p = pos + 1;
    if p >= tokens.len() {
        return (Err("'=' expected".to_owned()), p);
    }
    proof {
        assert(tsv[p as int] == tokens@[p as int]@);
    }
    let eq = matches!(tokens[p], Token::Equal);
    p += 1;
    if !eq {
        return (Err("'=' expected".to_owned()), p);
    }
    let (rhs, p2) = parse_rhs(tokens, p);
    match rhs {
        Ok(rule) => {
            if p2 >= tokens.len() {
                return (Err("no semicolon after rule".to_owned()), p2);
            }
            proof {
                assert(tsv[p2 as int] == tokens@[p2 as int]@);
            }
            let semi = matches!(tokens[p2], Token::Semicolon);
            if semi {
                (Ok((name, rule)), p2 + 1)
            } else {
                (Err("no semicolon after rule".to_owned()), p2 + 1)
            }
        },
        Err(e) => (Err(e), p2),
    }
}

/// The rule names of an EBNF rule list.
pub open spec fn rule_names(rules: Seq<(String, Vec<EBNF>)>) -> Seq<Seq<char>> {
    rules.map_values(|p: (String, Vec<EBNF>)| p.0@)
}

/// Abstract value of an EBNF rule list.
pub open spec fn rules_model(rules: Seq<(String, Vec<EBNF>)>) -> Seq<(Seq<char>, Seq<EbnfModel>)> {
    rules.map_values(|p: (String, Vec<EBNF>)| (p.0@, ebnf_views(p.1@)))
}

/// Append an alternative to the named rule, creating the rule at the end
/// of the list where it is new.
fn push_alt(rules: &mut Vec<(String, Vec<EBNF>)>, name: String, rhs: EBNF)
    requires
        rule_names(old(rules)@).no_duplicates(),
    ensures
        rule_names(final(rules)@).no_duplicates(),
        final(rules)@.len() >= old(rules)@.len(),
        old(rules)@.len() > 0 ==> final(rules)@[0].0 == old(rules)@[0].0,
        old(rules)@.len() == 0 ==> final(rules)@.len() == 1 && final(rules)@[0].0@ == name@,
        rules_model(final(rules)@) == push_alt_m(
            rules_model(old(rules)@),
            name@,
            ebnf_view(rhs),
        ),
{
    let ghost rm0 = rules_model(rules@);
    let n = rules.len();
    let mut i: usize = 0;
    while i < n
        invariant
            n == rules@.len(),
            i <= n,
            rules@ == old(rules)@,
            rm0 == rules_model(rules@),
            rule_names(rules@).no_duplicates(),
            forall|k: int| 0 <= k < i ==> rule_names(rules@)[k] != name@,
        decreases n - i,
    {
        if rules[i].0.eq(&name) {
            proof {
                assert(rule_names(rules@)[i as int] == name@);
                assert(rm0[i as int].0 == name@);
            }
            let mut pair = rules.remove(i);
            let ghost alts0 = pair.1@;
            pair.1.push(rhs);
            rules.insert(i, pair);
            proof {
                assert(rules@ =~= old(rules)@.update(i as int, rules@[i as int]));
                assert(rules@[i as int].0 == old(rules)@[i as int].0);
                assert(rules@[i as int].1@ == alts0.push(rhs));
                assert forall|k: int|
                    0 <= k < rule_names(rules@).len() implies rule_names(rules@)[k]
                    == rule_names(old(rules)@)[k] by {
                    if k != i {
                        assert(rules@[k] == old(rules)@[k]);
                    }
                }
                assert(rule_names(rules@) =~= rule_names(old(rules)@));
                if old(rules)@.len() > 0 && i != 0 {
                    assert(rules@[0] == old(rules)@[0]);
                }
                // the model updates the unique matching entry
                assert(exists|k: int| 0 <= k < rm0.len() && (#[trigger] rm0[k]).0 == name@);
                let k0 = choose|k: int| 0 <= k < rm0.len() && (#[trigger] rm0[k]).0 == name@;
                assert(rule_names(old(rules)@)[k0] == name@);
                assert(k0 == i);
                lemma_ebnf_views(alts0.push(rhs));
                lemma_ebnf_views(alts0);
                assert(ebnf_views(alts0.push(rhs)) =~= ebnf_views(alts0).push(ebnf_view(rhs)));
                assert forall|k: int|
                    0 <= k < rules_model(rules@).len() implies rules_model(rules@)[k]
                    == push_alt_m(rm0, name@, ebnf_view(rhs))[k] by {
                    if k != i {
                        assert(rules@[k] == old(rules)@[k]);
                    }
                }
                assert(rules_model(rules@) =~= push_alt_m(rm0, name@, ebnf_view(rhs)));
            }
            return ;
        }
        i += 1;
    }
    let ghost pre = rules@;
    let mut alts: Vec<EBNF> = Vec::new();
    alts.push(rhs);
    rules.push((name, alts));
    proof {
        assert(rules@.len() == pre.len() + 1);
        assert forall|k: int| 0 <= k < pre.len() implies rule_names(rules@)[k] == rule_names(
            pre,
        )[k] by {
            assert(rules@[k] == pre[k]);
        }
        assert(rule_names(rules@)[pre.len() as int] == rules@[pre.len() as int].0@);
        assert forall|a: int, b: int|
            0 <= a < b < rule_names(rules@).len() implies rule_names(rules@)[a] != rule_names(
            rules@,
        )[b] by {
            if b < pre.len() {
                assert(rule_names(pre)[a] != rule_names(pre)[b]);
            } else {
                assert(rule_names(rules@)[a] == rule_names(pre)[a]);
                assert(rule_names(pre)[a] != rule_names(rules@)[b]);
            }
        }
        assert(rule_names(rules@).no_duplicates());
        if pre.len() > 0 {
            assert(rules@[0] == pre[0]);
        }
        // the model appends a fresh entry
        assert forall|k: int| 0 <= k < rm0.len() implies (#[trigger] rm0[k]).0 != name@ by {
            assert(rule_names(pre)[k] != name@);
        }
        assert(!(exists|k: int| 0 <= k < rm0.len() && (#[trigger] rm0[k]).0 == name@));
        lemma_ebnf_views(rules@[pre.len() as int].1@);
        assert(ebnf_views(rules@[pre.len() as int].1@) =~= seq![ebnf_view(rhs)]);
        assert forall|k: int|
            0 <= k < rules_model(rules@).len() implies rules_model(rules@)[k] == push_alt_m(
            rm0,
            name@,
            ebnf_view(rhs),
        )[k] by {
            if k < pre.len() {
                assert(rules@[k] == pre[k]);
            }
        }
        assert(rules_model(rules@) =~= push_alt_m(rm0, name@, ebnf_view(rhs)));
    }
}

/// Parse a whole grammar description: a sequence of rules.
///
/// Succeeds exactly when the tokens form a nonempty sequence of rules of
/// the meta-grammar, and then returns exactly their rules, each name's
/// alternatives gathered in source order, the start symbol being the
/// first rule's left-hand side.
pub fn parse(tokens: Vec<Token>) -> (r: Result<GrammarEBNF, String>)
    ensures
        r is Ok <==> (tokens@.len() > 0 && sp_rules(toks_view(tokens@), 0, Seq::empty())
            is Some),
        r matches Ok(g) ==> {
            &&& Some(g@.rules) == sp_rules(toks_view(tokens@), 0, Seq::empty())
            &&& g.wf()
        },
{
    let ghost tsv = toks_view(tokens@);
    let ghost tgt = sp_rules(tsv, 0, Seq::empty());
    let n = tokens.len();
    let mut rules: Vec<(String, Vec<EBNF>)> = Vec::new();
    let mut start: Option<String> = None;
    let mut pos: usize = 0;
    proof {
        assert(rules_model(rules@) =~= Seq::<(Seq<char>, Seq<EbnfModel>)>::empty());
    }
    while pos < n
        invariant
            tsv == toks_view(tokens@),
            tgt == sp_rules(tsv, 0, Seq::empty()),
            n == tokens@.len(),
            pos <= n,
            rule_names(rules@).no_duplicates(),
            tgt == sp_rules(tsv, pos as int, rules_model(rules@)),
            match start {
                Some(s) => rules@.len() > 0 && rules@[0].0@ == s@,
                None => rules@.len() == 0,
            },
            pos > 0 ==> start is Some,
        decreases n - pos,
    {
        let (rule, p2) = parse_rule(&tokens, pos);
        match rule {
            Ok((name, rhs)) => {
                if start.is_none() {
                    start = Some(name.clone());
                }
                push_alt(&mut rules, name, rhs);
                pos = p2;
            },
            Err(e) => {
                proof {
                    assert(tgt is None);
                }
                return Err(e);
            },
        }
    }
    proof {
        assert(tgt == Some(rules_model(rules@)));
    }
    match start {
        Some(s) => {
            let g = GrammarEBNF { start_nonterm: s, rules };
            proof {
                assert(g@.rules =~= rules_model(g.rules@));
                assert(g@.rules.len() > 0);
                let gnames = g@.rules.map_values(|p: (Seq<char>, Seq<EbnfModel>)| p.0);
                assert forall|i: int, j: int|
                    0 <= i < j < g@.rules.len() implies #[trigger] gnames[i]
                    != #[trigger] gnames[j] by {
                    assert(rule_names(g.rules@)[i] != rule_names(g.rules@)[j]);
                }
            }
            Ok(g)
        },
        None => Err("empty grammar".to_owned()),
    }
}

} // verus!
