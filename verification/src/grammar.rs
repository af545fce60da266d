//! Grammar data model: EBNF expression trees and normalised (flat) grammars.
//!
//! An EBNF grammar is a list of rules, each mapping a nonterminal name to
//! alternative EBNF right-hand sides.  Normalisation expands the EBNF
//! operators into a flat list of productions over plain symbols, inventing
//! hidden auxiliary nonterminals (marked by a leading underscore) as needed.

use vstd::prelude::*;
use vstd::string::StrSliceExecFns;
use vstd::string::StringExecFns;

use crate::sets::LitSet;
use crate::strutil::char_vec_to_string;
use crate::strutil::str_to_char_vec;

verus! {

/// A plain grammar symbol, abstractly.
pub ghost enum SymModel {
    Eps,
    Non(Seq<char>),
    Term(Seq<char>),
}

/// A plain grammar symbol: epsilon, a nonterminal name, or a terminal
/// literal.
#[derive(Debug)]
pub enum NT {
    Epsilon,
    Non(String),
    Term(String),
}

impl View for NT {
    type V = SymModel;

    open spec fn view(&self) -> SymModel {
        match self {
            NT::Epsilon => SymModel::Eps,
            NT::Non(s) => SymModel::Non(s@),
            NT::Term(s) => SymModel::Term(s@),
        }
    }
}

impl Clone for NT {
    fn clone(&self) -> (r: Self)
        ensures
            r@ == self@,
    {
        match self {
            NT::Epsilon => NT::Epsilon,
            NT::Non(s) => NT::Non(s.clone()),
            NT::Term(s) => NT::Term(s.clone()),
        }
    }
}

/// A hidden name: a leading underscore marks a generated nonterminal.
pub open spec fn hidden_marked(name: Seq<char>) -> bool {
    name.len() > 0 && name[0] == '_'
}

/// An error found while building a parser from a grammar.
#[derive(Debug)]
pub enum GrammarError {
    /// A right-hand side references a nonterminal that has no rule.
    UndefinedNonterminal(String),
    /// A user rule is named with a leading underscore, which is reserved
    /// for generated hidden nonterminals.
    ReservedName(String),
    /// The grammar is not LL(1): two productions of the named nonterminal
    /// claim the same lookahead.
    Conflict {
        nonterminal: String,
        lookahead: String,
        first_production: usize,
        second_production: usize,
    },
}

/// Abstract value of a production list: pairs of left-hand-side name and
/// right-hand-side symbol sequence.
pub open spec fn prods_view(rules: Seq<(String, Vec<NT>)>) -> Seq<(Seq<char>, Seq<SymModel>)> {
    rules.map_values(|p: (String, Vec<NT>)| (p.0@, p.1@.map_values(|s: NT| s@)))
}

/// The names standing on some left-hand side.
pub open spec fn lhs_set(rules: Seq<(Seq<char>, Seq<SymModel>)>) -> Set<Seq<char>> {
    Set::new(|n: Seq<char>| exists|i: int| 0 <= i < rules.len() && rules[i].0 == n)
}

/// The names referenced as nonterminals on some right-hand side.
pub open spec fn rhs_non_set(rules: Seq<(Seq<char>, Seq<SymModel>)>) -> Set<Seq<char>> {
    Set::new(
        |n: Seq<char>|
            exists|i: int, j: int|
                0 <= i < rules.len() && 0 <= j < rules[i].1.len() && rules[i].1[j]
                    == SymModel::Non(n),
    )
}

/// Every nonterminal referenced on a right-hand side has a rule of its own.
pub open spec fn closed(rules: Seq<(Seq<char>, Seq<SymModel>)>) -> bool {
    rhs_non_set(rules).subset_of(lhs_set(rules))
}

/// Abstract value of a normalised grammar.
pub ghost struct GrammarModel {
    pub rules: Seq<(Seq<char>, Seq<SymModel>)>,
    pub start: Seq<char>,
    pub nonterminals: Set<Seq<char>>,
}

/// A normalised grammar: an ordered list of flat productions, a start
/// nonterminal, and the set of nonterminal names.
#[derive(Debug)]
pub struct GrammarChomsky {
    pub rules: Vec<(String, Vec<NT>)>,
    pub start_nonterm: String,
    pub nonterminals: Vec<String>,
}

impl View for GrammarChomsky {
    type V = GrammarModel;

    open spec fn view(&self) -> GrammarModel {
        GrammarModel {
            rules: prods_view(self.rules@),
            start: self.start_nonterm@,
            nonterminals: self.nonterminals@.map_values(|s: String| s@).to_set(),
        }
    }
}

impl GrammarChomsky {
    /// The grammar is well formed: the nonterminal list holds exactly the
    /// names on left-hand sides and referenced on right-hand sides, without
    /// repetition, and every referenced name has a rule.
    pub open spec fn wf(&self) -> bool {
        &&& self.nonterminals@.map_values(|s: String| s@).no_duplicates()
        &&& self@.nonterminals == lhs_set(self@.rules).union(rhs_non_set(self@.rules))
        &&& closed(self@.rules)
    }

    /// Check the closedness invariant and package the grammar.
    ///
    /// Succeeds exactly when every nonterminal referenced on a right-hand
    /// side has a rule; the error names a missing one.
    pub fn from_rules(start_nonterm: String, rules: Vec<(String, Vec<NT>)>) -> (r: Result<
        GrammarChomsky,
        GrammarError,
    >)
        ensures
            r is Ok <==> closed(prods_view(rules@)),
            match r {
                Ok(g) => {
                    &&& g@.rules == prods_view(rules@)
                    &&& g@.start == start_nonterm@
                    &&& g.wf()
                },
                Err(e) => {
                    &&& e matches GrammarError::UndefinedNonterminal(n)
                    &&& rhs_non_set(prods_view(rules@)).contains(n@)
                    &&& !lhs_set(prods_view(rules@)).contains(n@)
                },
            },
    {
        let ghost rv = prods_view(rules@);
        let mut nts = LitSet::new();
        let n = rules.len();
        let mut i: usize = 0;
        while i < n
            invariant
                rv == prods_view(rules@),
                n == rules@.len(),
                i <= n,
                nts.wf(),
                nts.set() == lhs_set(rv.take(i as int)).union(rhs_non_set(rv.take(i as int))),
            decreases n - i,
        {
            let ghost pre = nts.set();
            nts.insert_lit(&rules[i].0);
            let m = rules[i].1.len();
            let mut j: usize = 0;
            while j < m
                invariant
                    rv == prods_view(rules@),
                    n == rules@.len(),
                    i < n,
                    m == rules@[i as int].1@.len(),
                    j <= m,
                    nts.wf(),
                    nts.set() == pre.insert(rv[i as int].0).union(
                        Set::new(
                            |x: Seq<char>|
                                exists|l: int|
                                    0 <= l < j && rv[i as int].1[l] == SymModel::Non(x),
                        ),
                    ),
                decreases m - j,
            {
                match &rules[i].1[j] {
                    NT::Non(name) => {
                        nts.insert_lit(name);
                        proof {
                            assert(rv[i as int].1[j as int] == SymModel::Non(name@));
                        }
                    },
                    _ => {
                        proof {
                            assert(rv[i as int].1[j as int] matches SymModel::Term(_)
                                || rv[i as int].1[j as int] is Eps);
                        }
                    },
                }
                proof {
                    assert(nts.set() =~= pre.insert(rv[i as int].0).union(
                        Set::new(
                            |x: Seq<char>|
                                exists|l: int|
                                    0 <= l < j + 1 && rv[i as int].1[l] == SymModel::Non(x),
                        ),
                    ));
                }
                j += 1;
            }
            proof {
                let t1 = rv.take(i + 1);
                let t0 = rv.take(i as int);
                assert(m == rv[i as int].1.len());
                assert forall|x: Seq<char>| lhs_set(t1).contains(x) implies nts.set().contains(
                    x,
                ) by {
                    let l = choose|l: int| 0 <= l < t1.len() && t1[l].0 == x;
                    if l < i {
                        assert(t0[l].0 == x);
                        assert(lhs_set(t0).contains(x));
                    } else {
                        assert(rv[i as int].0 == x);
                    }
                }
                assert forall|x: Seq<char>| rhs_non_set(t1).contains(x) implies nts.set().contains(
                    x,
                ) by {
                    let (l, q) = choose|l: int, q: int|
                        0 <= l < t1.len() && 0 <= q < t1[l].1.len() && t1[l].1[q] == SymModel::Non(
                            x,
                        );
                    if l < i {
                        assert(t0[l].1[q] == SymModel::Non(x));
                        assert(rhs_non_set(t0).contains(x));
                    } else {
                        assert(rv[i as int].1[q] == SymModel::Non(x));
                    }
                }
                assert forall|x: Seq<char>| nts.set().contains(x) implies lhs_set(t1).union(
                    rhs_non_set(t1),
                ).contains(x) by {
                    if pre.contains(x) {
                        if lhs_set(t0).contains(x) {
                            let l = choose|l: int| 0 <= l < t0.len() && t0[l].0 == x;
                            assert(t1[l].0 == x);
                            assert(lhs_set(t1).contains(x));
                        } else {
                            let (l, q) = choose|l: int, q: int|
                                0 <= l < t0.len() && 0 <= q < t0[l].1.len() && t0[l].1[q]
                                    == SymModel::Non(x);
                            assert(t1[l].1[q] == SymModel::Non(x));
                            assert(rhs_non_set(t1).contains(x));
                        }
                    } else if x == rv[i as int].0 {
                        assert(t1[i as int].0 == x);
                        assert(lhs_set(t1).contains(x));
                    } else {
                        let q = choose|q: int|
                            0 <= q < m && rv[i as int].1[q] == SymModel::Non(x);
                        assert(t1[i as int].1[q] == SymModel::Non(x));
                        assert(rhs_non_set(t1).contains(x));
                    }
                }
                assert(nts.set() =~= lhs_set(t1).union(rhs_non_set(t1)));
            }
            i += 1;
        }
        proof {
            assert(rv.take(n as int) =~= rv);
        }
        // every collected name must stand on some left-hand side
        let count = nts.len();
        let mut k: usize = 0;
        while k < count
            invariant
                rv == prods_view(rules@),
                n == rules@.len(),
                count == nts.lits().len(),
                k <= count,
                nts.wf(),
                nts.set() == lhs_set(rv).union(rhs_non_set(rv)),
                forall|l: int| 0 <= l < k ==> lhs_set(rv).contains(nts.lits()[l]),
            decreases count - k,
        {
            let name = nts.index(k);
            let mut found = false;
            let mut j: usize = 0;
            while j < n
                invariant
                    rv == prods_view(rules@),
                    n == rules@.len(),
                    j <= n,
                    name@ == nts.lits()[k as int],
                    found ==> lhs_set(rv).contains(name@),
                    !found ==> forall|l: int| 0 <= l < j ==> rv[l].0 != name@,
                decreases n - j,
            {
                if !found {
                    if rules[j].0.eq(name) {
                        found = true;
                        proof {
                            assert(rv[j as int].0 == name@);
                        }
                    }
                }
                j += 1;
            }
            if !found {
                proof {
                    assert(!lhs_set(rv).contains(name@));
                    assert(nts.set().contains(name@));
                    assert(rhs_non_set(rv).contains(name@));
                }
                return Err(GrammarError::UndefinedNonterminal(name.clone()));
            }
            k += 1;
        }
        proof {
            assert forall|x: Seq<char>| rhs_non_set(rv).contains(x) implies lhs_set(
                rv,
            ).contains(x) by {
                assert(nts.set().contains(x));
                let l = choose|l: int| 0 <= l < nts.lits().len() && nts.lits()[l] == x;
                assert(lhs_set(rv).contains(nts.lits()[l]));
            }
        }
        let g = GrammarChomsky { rules, start_nonterm, nonterminals: nts.into_items() };
        proof {
            assert(g@.rules =~= rv);
            assert(g@.nonterminals =~= lhs_set(rv).union(rhs_non_set(rv)));
        }
        Ok(g)
    }
}

/// The character standing for the `d`-th letter, `0 -> 'A'`, ..., `25 -> 'Z'`.
pub open spec fn alpha_digit(d: nat) -> char {
    ((65 + d) as u8) as char
}

/// Bijective base-26 rendering of `n`: `0 -> ""`, `1 -> "A"`, `26 -> "Z"`,
/// `27 -> "AA"`, and so on.
pub open spec fn alpha_seq(n: nat) -> Seq<char>
    decreases n,
{
    if n == 0 {
        Seq::empty()
    } else {
        alpha_seq(((n - 1) / 26) as nat).push(alpha_digit(((n - 1) % 26) as nat))
    }
}

/// The name of the `num`-th hidden nonterminal: an underscore followed by
/// the bijective base-26 rendering of `num + 1`.
pub open spec fn hidden_name(num: nat) -> Seq<char> {
    seq!['_'].add(alpha_seq(num + 1))
}

fn letter_char(d: u8) -> (c: char)
    requires
        d < 26,
    ensures
        c == alpha_digit(d as nat),
{
    (65 + d) as char
}

/// Render the `num`-th fresh auxiliary nonterminal name.
pub fn num_to_alphastr(num: u32) -> (r: String)
    requires
        num < u32::MAX,
    ensures
        r@ == hidden_name(num as nat),
{
    let mut n: u32 = num + 1;
    let ghost n0: nat = n as nat;
    let mut letters: Vec<char> = Vec::new();
    while n > 0
        invariant
            alpha_seq(n0) == alpha_seq(n as nat).add(letters@.reverse()),
        decreases n,
    {
        let d: u8 = ((n - 1) % 26) as u8;
        let c = letter_char(d);
        let ghost prev = letters@;
        letters.push(c);
        n = (n - 1) / 26;
        proof {
            assert(letters@.reverse() =~= seq![c].add(prev.reverse()));
            assert(alpha_seq(n0) =~= alpha_seq(n as nat).add(letters@.reverse()));
        }
    }
    proof {
        assert(alpha_seq(n0) =~= letters@.reverse());
    }
    let mut s = String::new();
    s.push('_');
    let mut i = letters.len();
    while i > 0
        invariant
            i <= letters@.len(),
            s@ == seq!['_'].add(
                letters@.subrange(i as int, letters@.len() as int).reverse(),
            ),
        decreases i,
    {
        i -= 1;
        s.push(letters[i]);
        proof {
            assert(s@ =~= seq!['_'].add(
                letters@.subrange(i as int, letters@.len() as int).reverse(),
            ));
        }
    }
    proof {
        assert(letters@.subrange(0, letters@.len() as int) =~= letters@);
        assert(s@ =~= hidden_name(num as nat));
    }
    s
}

/// An EBNF expression, abstractly.
pub ghost enum EbnfModel {
    Eps,
    Non(Seq<char>),
    Term(Seq<char>),
    Iteration(Box<EbnfModel>),
    OneOrMore(Box<EbnfModel>),
    Optional(Box<EbnfModel>),
    Or(Seq<EbnfModel>),
    Concat(Seq<EbnfModel>),
}

/// An EBNF expression: epsilon, a nonterminal reference, a terminal
/// literal, iteration (zero or more), one-or-more, an optional part, an
/// alternation, or a concatenation.
#[derive(Debug)]
pub enum EBNF {
    Epsilon,
    Non(String),
    Term(String),
    Iteration(Box<EBNF>),
    OneOrMore(Box<EBNF>),
    Optional(Box<EBNF>),
    Or(Vec<EBNF>),
    Concat(Vec<EBNF>),
}

/// Abstract value of an EBNF expression.
pub open spec fn ebnf_view(e: EBNF) -> EbnfModel
    decreases e,
{
    match e {
        EBNF::Epsilon => EbnfModel::Eps,
        EBNF::Non(s) => EbnfModel::Non(s@),
        EBNF::Term(s) => EbnfModel::Term(s@),
        EBNF::Iteration(b) => EbnfModel::Iteration(Box::new(ebnf_view(*b))),
        EBNF::OneOrMore(b) => EbnfModel::OneOrMore(Box::new(ebnf_view(*b))),
        EBNF::Optional(b) => EbnfModel::Optional(Box::new(ebnf_view(*b))),
        EBNF::Or(v) => EbnfModel::Or(ebnf_views(v@)),
        EBNF::Concat(v) => EbnfModel::Concat(ebnf_views(v@)),
    }
}

/// Abstract values of a list of EBNF expressions.
pub open spec fn ebnf_views(s: Seq<EBNF>) -> Seq<EbnfModel>
    decreases s,
{
    if s.len() == 0 {
        Seq::empty()
    } else {
        seq![ebnf_view(s.first())].add(ebnf_views(s.drop_first()))
    }
}

pub proof fn lemma_ebnf_views(s: Seq<EBNF>)
    ensures
        ebnf_views(s).len() == s.len(),
        forall|i: int| 0 <= i < s.len() ==> ebnf_views(s)[i] == ebnf_view(s[i]),
    decreases s.len(),
{
    if s.len() > 0 {
        lemma_ebnf_views(s.drop_first());
    }
}

impl View for EBNF {
    type V = EbnfModel;

    open spec fn view(&self) -> EbnfModel {
        ebnf_view(*self)
    }
}

/// Node count of an EBNF expression; the measure expansion recurses on.
pub open spec fn ebnf_size(e: EbnfModel) -> nat
    decreases e,
{
    match e {
        EbnfModel::Eps => 1,
        EbnfModel::Non(_) => 1,
        EbnfModel::Term(_) => 1,
        EbnfModel::Iteration(b) => 1 + ebnf_size(*b),
        EbnfModel::OneOrMore(b) => 1 + ebnf_size(*b),
        EbnfModel::Optional(b) => 1 + ebnf_size(*b),
        EbnfModel::Or(cs) => 1 + ebnf_size_list(cs),
        EbnfModel::Concat(cs) => 1 + ebnf_size_list(cs),
    }
}

/// Node count of a list of EBNF expressions.
pub open spec fn ebnf_size_list(s: Seq<EbnfModel>) -> nat
    decreases s,
{
    if s.len() == 0 {
        0
    } else {
        ebnf_size(s.first()) + ebnf_size_list(s.drop_first())
    }
}

pub proof fn lemma_ebnf_size_elem(s: Seq<EbnfModel>, i: int)
    requires
        0 <= i < s.len(),
    ensures
        ebnf_size(s[i]) <= ebnf_size_list(s),
    decreases s.len(),
{
    if i == 0 {
        assert(s.first() == s[0]);
    } else {
        lemma_ebnf_size_elem(s.drop_first(), i - 1);
        assert(s.drop_first()[i - 1] == s[i]);
    }
}

/// How many hidden nonterminals expanding `e` allocates.
pub open spec fn fresh_count(e: EbnfModel) -> nat
    decreases e,
{
    match e {
        EbnfModel::Eps => 0,
        EbnfModel::Non(_) => 0,
        EbnfModel::Term(_) => 0,
        EbnfModel::Iteration(b) => 1 + fresh_count(*b),
        EbnfModel::OneOrMore(b) => 2 + fresh_count(*b),
        EbnfModel::Optional(b) => 1 + fresh_count(*b),
        EbnfModel::Or(cs) => 1 + fresh_count_list(cs),
        EbnfModel::Concat(cs) => fresh_count_list(cs),
    }
}

/// Hidden nonterminals allocated when expanding each of `s` in turn.
pub open spec fn fresh_count_list(s: Seq<EbnfModel>) -> nat
    decreases s,
{
    if s.len() == 0 {
        0
    } else {
        fresh_count(s.first()) + fresh_count_list(s.drop_first())
    }
}

/// What expanding an EBNF expression yields: productions to emit and the
/// symbol sequence standing at the expansion site.
pub ghost struct Expansion {
    pub prods: Seq<(Seq<char>, Seq<SymModel>)>,
    pub syms: Seq<SymModel>,
}

/// Expansion of one EBNF expression with the fresh-name counter at `ctr`.
///
/// Each EBNF operator becomes fresh hidden productions in a right-recursive
/// shape; plain symbols stand for themselves, with nonterminal names
/// canonicalised.
pub open spec fn expand(e: EbnfModel, ctr: nat) -> Expansion
    decreases e,
{
    match e {
        EbnfModel::Eps => Expansion { prods: Seq::empty(), syms: seq![SymModel::Eps] },
        EbnfModel::Non(n) => Expansion {
            prods: Seq::empty(),
            syms: seq![SymModel::Non(capitalized(n))],
        },
        EbnfModel::Term(t) => Expansion { prods: Seq::empty(), syms: seq![SymModel::Term(t)] },
        EbnfModel::Concat(cs) => expand_list(cs, ctr),
        EbnfModel::Or(cs) => {
            let h = hidden_name(ctr);
            Expansion { prods: expand_alts(cs, ctr + 1, h), syms: seq![SymModel::Non(h)] }
        },
        EbnfModel::Optional(b) => {
            let h = hidden_name(ctr);
            let sub = expand(*b, ctr + 1);
            Expansion {
                prods: sub.prods.push((h, sub.syms)).push((h, seq![SymModel::Eps])),
                syms: seq![SymModel::Non(h)],
            }
        },
        EbnfModel::Iteration(b) => {
            let h = hidden_name(ctr);
            let sub = expand(*b, ctr + 1);
            Expansion {
                prods: sub.prods.push((h, seq![SymModel::Eps])).push(
                    (h, sub.syms.push(SymModel::Non(h))),
                ),
                syms: seq![SymModel::Non(h)],
            }
        },
        EbnfModel::OneOrMore(b) => {
            let h = hidden_name(ctr);
            let h2 = hidden_name(ctr + 1);
            let sub = expand(*b, ctr + 2);
            let body = sub.syms.push(SymModel::Non(h2));
            Expansion {
                prods: sub.prods.push((h, body)).push((h2, body)).push(
                    (h2, seq![SymModel::Eps]),
                ),
                syms: seq![SymModel::Non(h)],
            }
        },
    }
}

/// Expansion of a concatenation: children in order, their productions and
/// symbols concatenated, the counter threaded through.
pub open spec fn expand_list(cs: Seq<EbnfModel>, ctr: nat) -> Expansion
    decreases cs,
{
    if cs.len() == 0 {
        Expansion { prods: Seq::empty(), syms: Seq::empty() }
    } else {
        let e1 = expand(cs.first(), ctr);
        let rest = expand_list(cs.drop_first(), ctr + fresh_count(cs.first()));
        Expansion { prods: e1.prods.add(rest.prods), syms: e1.syms.add(rest.syms) }
    }
}

/// Expansion of an alternation: each child yields its own productions and
/// then one production of the hidden nonterminal `h`.
pub open spec fn expand_alts(cs: Seq<EbnfModel>, ctr: nat, h: Seq<char>) -> Seq<
    (Seq<char>, Seq<SymModel>),
>
    decreases cs,
{
    if cs.len() == 0 {
        Seq::empty()
    } else {
        let e1 = expand(cs.first(), ctr);
        e1.prods.push((h, e1.syms)).add(
            expand_alts(cs.drop_first(), ctr + fresh_count(cs.first()), h),
        )
    }
}

pub proof fn lemma_fresh_count_list_snoc(s: Seq<EbnfModel>, x: EbnfModel)
    ensures
        fresh_count_list(s.push(x)) == fresh_count_list(s) + fresh_count(x),
    decreases s.len(),
{
    reveal_with_fuel(fresh_count_list, 3);
    assert(s.push(x).len() == s.len() + 1);
    if s.len() == 0 {
        assert(s.push(x).first() == x);
        assert(s.push(x).drop_first() =~= Seq::empty());
    } else {
        assert(s.push(x).first() == s.first());
        assert(s.push(x).drop_first() =~= s.drop_first().push(x));
        lemma_fresh_count_list_snoc(s.drop_first(), x);
    }
}

pub proof fn lemma_expand_list_snoc(s: Seq<EbnfModel>, x: EbnfModel, ctr: nat)
    ensures
        expand_list(s.push(x), ctr).prods == expand_list(s, ctr).prods.add(
            expand(x, ctr + fresh_count_list(s)).prods,
        ),
        expand_list(s.push(x), ctr).syms == expand_list(s, ctr).syms.add(
            expand(x, ctr + fresh_count_list(s)).syms,
        ),
    decreases s.len(),
{
    reveal_with_fuel(fresh_count_list, 3);
    reveal_with_fuel(expand_list, 3);
    if s.len() == 0 {
        assert(s.push(x).first() == x);
        assert(s.push(x).drop_first() =~= Seq::empty());
        assert(expand_list(s.push(x), ctr).prods =~= expand_list(s, ctr).prods.add(
            expand(x, ctr + fresh_count_list(s)).prods,
        ));
        assert(expand_list(s.push(x), ctr).syms =~= expand_list(s, ctr).syms.add(
            expand(x, ctr + fresh_count_list(s)).syms,
        ));
    } else {
        assert(s.push(x).first() == s.first());
        assert(s.push(x).drop_first() =~= s.drop_first().push(x));
        lemma_expand_list_snoc(s.drop_first(), x, ctr + fresh_count(s.first()));
        assert(fresh_count_list(s) == fresh_count(s.first()) + fresh_count_list(s.drop_first()));
        assert(expand_list(s.push(x), ctr).prods =~= expand_list(s, ctr).prods.add(
            expand(x, ctr + fresh_count_list(s)).prods,
        ));
        assert(expand_list(s.push(x), ctr).syms =~= expand_list(s, ctr).syms.add(
            expand(x, ctr + fresh_count_list(s)).syms,
        ));
    }
}

pub proof fn lemma_expand_alts_snoc(s: Seq<EbnfModel>, x: EbnfModel, ctr: nat, h: Seq<char>)
    ensures
        expand_alts(s.push(x), ctr, h) == expand_alts(s, ctr, h).add(
            expand(x, ctr + fresh_count_list(s)).prods.push(
                (h, expand(x, ctr + fresh_count_list(s)).syms),
            ),
        ),
    decreases s.len(),
{
    reveal_with_fuel(fresh_count_list, 3);
    reveal_with_fuel(expand_alts, 3);
    if s.len() == 0 {
        assert(s.push(x).first() == x);
        assert(s.push(x).drop_first() =~= Seq::empty());
        assert(expand_alts(s.push(x), ctr, h) =~= expand_alts(s, ctr, h).add(
            expand(x, ctr + fresh_count_list(s)).prods.push(
                (h, expand(x, ctr + fresh_count_list(s)).syms),
            ),
        ));
    } else {
        assert(s.push(x).first() == s.first());
        assert(s.push(x).drop_first() =~= s.drop_first().push(x));
        lemma_expand_alts_snoc(s.drop_first(), x, ctr + fresh_count(s.first()), h);
        assert(fresh_count_list(s) == fresh_count(s.first()) + fresh_count_list(s.drop_first()));
        assert(expand_alts(s.push(x), ctr, h) =~= expand_alts(s, ctr, h).add(
            expand(x, ctr + fresh_count_list(s)).prods.push(
                (h, expand(x, ctr + fresh_count_list(s)).syms),
            ),
        ));
    }
}

/// Abstract value of a symbol vector.
pub open spec fn syms_view(v: Seq<NT>) -> Seq<SymModel> {
    v.map_values(|s: NT| s@)
}

/// Splitting a list splits its fresh-name count.
pub proof fn lemma_fresh_count_list_split(s: Seq<EbnfModel>, i: int)
    requires
        0 <= i <= s.len(),
    ensures
        fresh_count_list(s) == fresh_count_list(s.take(i)) + fresh_count_list(s.skip(i)),
    decreases i,
{
    reveal_with_fuel(fresh_count_list, 3);
    if i == 0 {
        assert(s.take(0) =~= Seq::empty());
        assert(s.skip(0) =~= s);
    } else {
        assert(s.take(i).first() == s.first());
        assert(s.take(i).drop_first() =~= s.drop_first().take(i - 1));
        assert(s.skip(i) =~= s.drop_first().skip(i - 1));
        lemma_fresh_count_list_split(s.drop_first(), i - 1);
    }
}

/// The fresh-name count of an element is within that of any list holding it.
pub proof fn lemma_fresh_count_elem(s: Seq<EbnfModel>, i: int)
    requires
        0 <= i < s.len(),
    ensures
        fresh_count_list(s.take(i)) + fresh_count(s[i]) <= fresh_count_list(s),
{
    lemma_fresh_count_list_split(s, i);
    assert(s.skip(i).first() == s[i]);
    assert(fresh_count_list(s.skip(i)) == fresh_count(s[i]) + fresh_count_list(
        s.skip(i).drop_first(),
    ));
}

impl EBNF {
    /// Expand this expression into `rules`, allocating fresh hidden
    /// nonterminals from `counter`, and return the symbols standing at the
    /// expansion site.
    fn to_chomsky(&self, rules: &mut Vec<(String, Vec<NT>)>, counter: &mut u32) -> (syms: Vec<
        NT,
    >)
        requires
            *old(counter) + fresh_count(ebnf_view(*self)) <= u32::MAX,
        ensures
            *final(counter) == *old(counter) + fresh_count(ebnf_view(*self)),
            prods_view(final(rules)@) == prods_view(old(rules)@).add(
                expand(ebnf_view(*self), *old(counter) as nat).prods,
            ),
            syms_view(syms@) == expand(ebnf_view(*self), *old(counter) as nat).syms,
        decreases ebnf_size(ebnf_view(*self)),
    {
        let ghost c0 = *counter as nat;
        let ghost base = prods_view(rules@);
        match self {
            EBNF::Epsilon => {
                let mut out: Vec<NT> = Vec::new();
                out.push(NT::Epsilon);
                proof {
                    assert(syms_view(out@) =~= seq![SymModel::Eps]);
                    assert(prods_view(rules@) =~= base.add(Seq::empty()));
                }
                out
            },
            EBNF::Non(a) => {
                let mut out: Vec<NT> = Vec::new();
                out.push(NT::Non(capitalize_first_letter(a.as_str())));
                proof {
                    assert(syms_view(out@) =~= seq![SymModel::Non(capitalized(a@))]);
                    assert(prods_view(rules@) =~= base.add(Seq::empty()));
                }
                out
            },
            EBNF::Term(a) => {
                let mut out: Vec<NT> = Vec::new();
                out.push(NT::Term(a.clone()));
                proof {
                    assert(syms_view(out@) =~= seq![SymModel::Term(a@)]);
                    assert(prods_view(rules@) =~= base.add(Seq::empty()));
                }
                out
            },
            EBNF::Concat(v) => {
                let ghost vs = ebnf_views(v@);
                proof {
                    lemma_ebnf_views(v@);
                }
                let mut out: Vec<NT> = Vec::new();
                let n = v.len();
                let mut i: usize = 0;
                while i < n
                    invariant
                        n == v@.len(),
                        i <= n,
                        vs == ebnf_views(v@),
                        vs.len() == n,
                        forall|k: int| 0 <= k < n ==> vs[k] == ebnf_view(v@[k]),
                        ebnf_view(*self) == EbnfModel::Concat(vs),
                        c0 + fresh_count_list(vs) <= u32::MAX,
                        *counter as nat == c0 + fresh_count_list(vs.take(i as int)),
                        prods_view(rules@) == base.add(expand_list(vs.take(i as int), c0).prods),
                        syms_view(out@) == expand_list(vs.take(i as int), c0).syms,
                    decreases n - i,
                {
                    proof {
                        lemma_fresh_count_elem(vs, i as int);
                        lemma_ebnf_size_elem(vs, i as int);
                        assert(ebnf_size(ebnf_view(v@[i as int])) < ebnf_size(ebnf_view(*self)));
                    }
                    let mut sub = v[i].to_chomsky(rules, counter);
                    out.append(&mut sub);
                    proof {
                        assert(vs.take(i + 1) =~= vs.take(i as int).push(vs[i as int]));
                        lemma_expand_list_snoc(vs.take(i as int), vs[i as int], c0);
                        lemma_fresh_count_list_snoc(vs.take(i as int), vs[i as int]);
                        assert(syms_view(out@) =~= expand_list(vs.take(i + 1), c0).syms);
                        assert(prods_view(rules@) =~= base.add(
                            expand_list(vs.take(i + 1), c0).prods,
                        ));
                    }
                    i += 1;
                }
                proof {
                    assert(vs.take(n as int) =~= vs);
                }
                out
            },
            EBNF::Or(v) => {
                let ghost vs = ebnf_views(v@);
                proof {
                    lemma_ebnf_views(v@);
                }
                let hname = num_to_alphastr(*counter);
                *counter = *counter + 1;
                let ghost c1 = *counter as nat;
                let ghost h = hidden_name(c0);
                let n = v.len();
                let mut i: usize = 0;
                while i < n
                    invariant
                        n == v@.len(),
                        i <= n,
                        vs == ebnf_views(v@),
                        vs.len() == n,
                        forall|k: int| 0 <= k < n ==> vs[k] == ebnf_view(v@[k]),
                        ebnf_view(*self) == EbnfModel::Or(vs),
                        c1 == c0 + 1,
                        c1 + fresh_count_list(vs) <= u32::MAX,
                        hname@ == h,
                        *counter as nat == c1 + fresh_count_list(vs.take(i as int)),
                        prods_view(rules@) == base.add(expand_alts(vs.take(i as int), c1, h)),
                    decreases n - i,
                {
                    proof {
                        lemma_fresh_count_elem(vs, i as int);
                        lemma_ebnf_size_elem(vs, i as int);
                        assert(ebnf_size(ebnf_view(v@[i as int])) < ebnf_size(ebnf_view(*self)));
                    }
                    let ghost cmid = *counter as nat;
                    let sub = v[i].to_chomsky(rules, counter);
                    let ghost p1 = prods_view(rules@);
                    let ghost e1 = expand(vs[i as int], cmid);
                    rules.push((hname.clone(), sub));
                    proof {
                        assert(prods_view(rules@) =~= p1.push((h, e1.syms)));
                        assert(vs.take(i + 1) =~= vs.take(i as int).push(vs[i as int]));
                        lemma_expand_alts_snoc(vs.take(i as int), vs[i as int], c1, h);
                        lemma_fresh_count_list_snoc(vs.take(i as int), vs[i as int]);
                        assert(prods_view(rules@) =~= base.add(
                            expand_alts(vs.take(i + 1), c1, h),
                        ));
                    }
                    i += 1;
                }
                let mut out: Vec<NT> = Vec::new();
                out.push(NT::Non(hname));
                proof {
                    assert(vs.take(n as int) =~= vs);
                    assert(syms_view(out@) =~= seq![SymModel::Non(h)]);
                }
                out
            },
            EBNF::Optional(b) => {
                let hname = num_to_alphastr(*counter);
                *counter = *counter + 1;
                let sub = (**b).to_chomsky(rules, counter);
                let ghost h = hidden_name(c0);
                let ghost e1 = expand(ebnf_view(**b), c0 + 1);
                let ghost p1 = prods_view(rules@);
                rules.push((hname.clone(), sub));
                proof {
                    assert(prods_view(rules@) =~= p1.push((h, e1.syms)));
                }
                let mut eps_rhs: Vec<NT> = Vec::new();
                eps_rhs.push(NT::Epsilon);
                proof {
                    assert(syms_view(eps_rhs@) =~= seq![SymModel::Eps]);
                }
                let ghost p2 = prods_view(rules@);
                rules.push((hname.clone(), eps_rhs));
                let mut out: Vec<NT> = Vec::new();
                out.push(NT::Non(hname));
                proof {
                    assert(prods_view(rules@) =~= p2.push((h, seq![SymModel::Eps])));
                    assert(prods_view(rules@) =~= base.add(
                        e1.prods.push((h, e1.syms)).push((h, seq![SymModel::Eps])),
                    ));
                    assert(syms_view(out@) =~= seq![SymModel::Non(h)]);
                }
                out
            },
            EBNF::Iteration(b) => {
                let hname = num_to_alphastr(*counter);
                *counter = *counter + 1;
                let mut sub = (**b).to_chomsky(rules, counter);
                let ghost h = hidden_name(c0);
                let ghost e1 = expand(ebnf_view(**b), c0 + 1);
                let mut eps_rhs: Vec<NT> = Vec::new();
                eps_rhs.push(NT::Epsilon);
                proof {
                    assert(syms_view(eps_rhs@) =~= seq![SymModel::Eps]);
                }
                let ghost p1 = prods_view(rules@);
                rules.push((hname.clone(), eps_rhs));
                proof {
                    assert(prods_view(rules@) =~= p1.push((h, seq![SymModel::Eps])));
                }
                sub.push(NT::Non(hname.clone()));
                proof {
                    assert(syms_view(sub@) =~= e1.syms.push(SymModel::Non(h)));
                }
                let ghost p2 = prods_view(rules@);
                rules.push((hname.clone(), sub));
                let mut out: Vec<NT> = Vec::new();
                out.push(NT::Non(hname));
                proof {
                    assert(prods_view(rules@) =~= p2.push((h, e1.syms.push(SymModel::Non(h)))));
                    assert(prods_view(rules@) =~= base.add(
                        e1.prods.push((h, seq![SymModel::Eps])).push(
                            (h, e1.syms.push(SymModel::Non(h))),
                        ),
                    ));
                    assert(syms_view(out@) =~= seq![SymModel::Non(h)]);
                }
                out
            },
            EBNF::OneOrMore(b) => {
                let hname = num_to_alphastr(*counter);
                *counter = *counter + 1;
                let hname2 = num_to_alphastr(*counter);
                *counter = *counter + 1;
                let mut sub = (**b).to_chomsky(rules, counter);
                let ghost h = hidden_name(c0);
                let ghost h2 = hidden_name(c0 + 1);
                let ghost e1 = expand(ebnf_view(**b), c0 + 2);
                sub.push(NT::Non(hname2.clone()));
                proof {
                    assert(syms_view(sub@) =~= e1.syms.push(SymModel::Non(h2)));
                }
                let ghost body = e1.syms.push(SymModel::Non(h2));
                let body2 = clone_syms(&sub);
                let ghost p1 = prods_view(rules@);
                rules.push((hname.clone(), sub));
                proof {
                    assert(prods_view(rules@) =~= p1.push((h, body)));
                }
                let ghost p2 = prods_view(rules@);
                rules.push((hname2.clone(), body2));
                proof {
                    assert(prods_view(rules@) =~= p2.push((h2, body)));
                }
                let mut eps_rhs: Vec<NT> = Vec::new();
                eps_rhs.push(NT::Epsilon);
                proof {
                    assert(syms_view(eps_rhs@) =~= seq![SymModel::Eps]);
                }
                let ghost p3 = prods_view(rules@);
                rules.push((hname2, eps_rhs));
                let mut out: Vec<NT> = Vec::new();
                out.push(NT::Non(hname));
                proof {
                    assert(prods_view(rules@) =~= p3.push((h2, seq![SymModel::Eps])));
                    assert(prods_view(rules@) =~= base.add(
                        e1.prods.push((h, body)).push((h2, body)).push((h2, seq![SymModel::Eps])),
                    ));
                    assert(syms_view(out@) =~= seq![SymModel::Non(h)]);
                }
                out
            },
        }
    }
}

/// Abstract value of an EBNF grammar.
pub ghost struct GrammarEbnfModel {
    pub start: Seq<char>,
    pub rules: Seq<(Seq<char>, Seq<EbnfModel>)>,
}

/// An EBNF grammar: the start nonterminal (the first rule's left-hand side)
/// and, per nonterminal, its alternative right-hand sides, in source order.
#[derive(Debug)]
pub struct GrammarEBNF {
    pub start_nonterm: String,
    pub rules: Vec<(String, Vec<EBNF>)>,
}

impl View for GrammarEBNF {
    type V = GrammarEbnfModel;

    open spec fn view(&self) -> GrammarEbnfModel {
        GrammarEbnfModel {
            start: self.start_nonterm@,
            rules: self.rules@.map_values(|p: (String, Vec<EBNF>)| (p.0@, ebnf_views(p.1@))),
        }
    }
}

/// Hidden nonterminals allocated when normalising each rule in turn.
pub open spec fn fresh_count_rules(rules: Seq<(Seq<char>, Seq<EbnfModel>)>) -> nat
    decreases rules,
{
    if rules.len() == 0 {
        0
    } else {
        fresh_count_list(rules.first().1) + fresh_count_rules(rules.drop_first())
    }
}

/// The flat production list that normalising an EBNF grammar yields: for
/// each rule, each alternative is expanded and then emitted as a production
/// of the rule's canonicalised nonterminal.
pub open spec fn norm_rules(rules: Seq<(Seq<char>, Seq<EbnfModel>)>, ctr: nat) -> Seq<
    (Seq<char>, Seq<SymModel>),
>
    decreases rules,
{
    if rules.len() == 0 {
        Seq::empty()
    } else {
        expand_alts(rules.first().1, ctr, capitalized(rules.first().0)).add(
            norm_rules(rules.drop_first(), ctr + fresh_count_list(rules.first().1)),
        )
    }
}

pub proof fn lemma_fresh_count_rules_snoc(
    s: Seq<(Seq<char>, Seq<EbnfModel>)>,
    x: (Seq<char>, Seq<EbnfModel>),
)
    ensures
        fresh_count_rules(s.push(x)) == fresh_count_rules(s) + fresh_count_list(x.1),
    decreases s.len(),
{
    reveal_with_fuel(fresh_count_rules, 3);
    if s.len() == 0 {
        assert(s.push(x).first() == x);
        assert(s.push(x).drop_first() =~= Seq::empty());
    } else {
        assert(s.push(x).first() == s.first());
        assert(s.push(x).drop_first() =~= s.drop_first().push(x));
        lemma_fresh_count_rules_snoc(s.drop_first(), x);
    }
}

pub proof fn lemma_norm_rules_snoc(
    s: Seq<(Seq<char>, Seq<EbnfModel>)>,
    x: (Seq<char>, Seq<EbnfModel>),
    ctr: nat,
)
    ensures
        norm_rules(s.push(x), ctr) == norm_rules(s, ctr).add(
            expand_alts(x.1, ctr + fresh_count_rules(s), capitalized(x.0)),
        ),
    decreases s.len(),
{
    reveal_with_fuel(fresh_count_rules, 3);
    reveal_with_fuel(norm_rules, 3);
    if s.len() == 0 {
        assert(s.push(x).first() == x);
        assert(s.push(x).drop_first() =~= Seq::empty());
        assert(norm_rules(s.push(x), ctr) =~= norm_rules(s, ctr).add(
            expand_alts(x.1, ctr + fresh_count_rules(s), capitalized(x.0)),
        ));
    } else {
        assert(s.push(x).first() == s.first());
        assert(s.push(x).drop_first() =~= s.drop_first().push(x));
        lemma_norm_rules_snoc(s.drop_first(), x, ctr + fresh_count_list(s.first().1));
        assert(norm_rules(s.push(x), ctr) =~= norm_rules(s, ctr).add(
            expand_alts(x.1, ctr + fresh_count_rules(s), capitalized(x.0)),
        ));
    }
}

/// The fresh-name count of one rule's alternatives is within the whole
/// grammar's count.
pub proof fn lemma_fresh_count_rules_elem(s: Seq<(Seq<char>, Seq<EbnfModel>)>, i: int)
    requires
        0 <= i < s.len(),
    ensures
        fresh_count_rules(s.take(i)) + fresh_count_list(s[i].1) <= fresh_count_rules(s),
    decreases i,
{
    reveal_with_fuel(fresh_count_rules, 3);
    if i == 0 {
        assert(s.take(0) =~= Seq::<(Seq<char>, Seq<EbnfModel>)>::empty());
        assert(s.first() == s[0]);
    } else {
        assert(s.take(i).first() == s.first());
        assert(s.take(i).drop_first() =~= s.drop_first().take(i - 1));
        lemma_fresh_count_rules_elem(s.drop_first(), i - 1);
        assert(s.drop_first()[i - 1] == s[i]);
    }
}


/// The smaller of a fresh-name count and the counting cap.
pub open spec fn capped(n: nat) -> nat {
    if n <= 0xFFFF_FFFF_FFFF_FFFF {
        n
    } else {
        0xFFFF_FFFF_FFFF_FFFF
    }
}

/// Add two capped counts, saturating at the cap.
fn sat_add(a: u64, b: u64) -> (r: u64)
    ensures
        r as nat == capped((a + b) as nat),
{
    if a > u64::MAX - b {
        u64::MAX
    } else {
        a + b
    }
}

/// Count the hidden nonterminals expanding this expression allocates,
/// saturating at the counting cap.
fn count_fresh(e: &EBNF) -> (r: u64)
    ensures
        r as nat == capped(fresh_count(ebnf_view(*e))),
    decreases ebnf_size(ebnf_view(*e)), 0int,
{
    match e {
        EBNF::Epsilon => 0,
        EBNF::Non(_) => 0,
        EBNF::Term(_) => 0,
        EBNF::Iteration(b) => sat_add(1, count_fresh(b)),
        EBNF::OneOrMore(b) => sat_add(2, count_fresh(b)),
        EBNF::Optional(b) => sat_add(1, count_fresh(b)),
        EBNF::Or(v) => sat_add(1, count_fresh_list(v)),
        EBNF::Concat(v) => count_fresh_list(v),
    }
}

/// Count the hidden nonterminals a list of expressions allocates,
/// saturating at the counting cap.
fn count_fresh_list(v: &Vec<EBNF>) -> (r: u64)
    ensures
        r as nat == capped(fresh_count_list(ebnf_views(v@))),
    decreases ebnf_size_list(ebnf_views(v@)), 1int,
{
    let ghost vs = ebnf_views(v@);
    proof {
        lemma_ebnf_views(v@);
    }
    let n = v.len();
    let mut acc: u64 = 0;
    let mut i: usize = 0;
    proof {
        assert(vs.take(0) =~= Seq::<EbnfModel>::empty());
    }
    while i < n
        invariant
            n == v@.len(),
            i <= n,
            vs == ebnf_views(v@),
            vs.len() == n,
            forall|k: int| 0 <= k < n ==> vs[k] == ebnf_view(v@[k]),
            acc as nat == capped(fresh_count_list(vs.take(i as int))),
        decreases n - i,
    {
        proof {
            lemma_ebnf_size_elem(vs, i as int);
            assert(ebnf_size(ebnf_view(v@[i as int])) <= ebnf_size_list(ebnf_views(v@)));
        }
        let c = count_fresh(&v[i]);
        acc = sat_add(acc, c);
        proof {
            assert(vs.take(i + 1) =~= vs.take(i as int).push(vs[i as int]));
            lemma_fresh_count_list_snoc(vs.take(i as int), vs[i as int]);
        }
        i += 1;
    }
    proof {
        assert(vs.take(n as int) =~= vs);
    }
    acc
}

impl GrammarEBNF {
    /// The grammar is well formed: at least one rule, rule names distinct,
    /// and the start symbol is the first rule's left-hand side.
    pub open spec fn wf(&self) -> bool {
        &&& self@.rules.len() > 0
        &&& self@.rules.map_values(|p: (Seq<char>, Seq<EbnfModel>)| p.0).no_duplicates()
        &&& self@.start == self@.rules[0].0
    }


    /// Normalise after checking that the 32-bit fresh-name counter
    /// suffices for this grammar; `None` where it would not.
    pub fn try_to_chomsky(&self) -> (r: Option<Result<GrammarChomsky, GrammarError>>)
        ensures
            r is Some <==> fresh_count_rules(self@.rules) <= u32::MAX,
            match r {
                Some(inner) => {
                    &&& inner is Ok <==> {
                        &&& !(exists|i: int|
                            0 <= i < self@.rules.len() && hidden_marked(
                                (#[trigger] self@.rules[i]).0,
                            ))
                        &&& closed(norm_rules(self@.rules, 0))
                    }
                    &&& inner matches Ok(g) ==> {
                        &&& g@.rules == norm_rules(self@.rules, 0)
                        &&& g@.start == capitalized(self@.start)
                        &&& g.wf()
                    }
                },
                None => true,
            },
    {
        let ghost rv = self@.rules;
        let n = self.rules.len();
        let mut acc: u64 = 0;
        let mut i: usize = 0;
        proof {
            assert(rv.take(0) =~= Seq::<(Seq<char>, Seq<EbnfModel>)>::empty());
        }
        while i < n
            invariant
                rv == self@.rules,
                n == self.rules@.len(),
                i <= n,
                rv.len() == n,
                acc as nat == capped(fresh_count_rules(rv.take(i as int))),
            decreases n - i,
        {
            proof {
                lemma_ebnf_views(self.rules@[i as int].1@);
                assert(rv[i as int].1 == ebnf_views(self.rules@[i as int].1@));
            }
            let c = count_fresh_list(&self.rules[i].1);
            acc = sat_add(acc, c);
            proof {
                assert(rv.take(i + 1) =~= rv.take(i as int).push(rv[i as int]));
                lemma_fresh_count_rules_snoc(rv.take(i as int), rv[i as int]);
            }
            i += 1;
        }
        proof {
            assert(rv.take(n as int) =~= rv);
        }
        if acc > 0xFFFF_FFFF {
            proof {
                assert(fresh_count_rules(rv) > u32::MAX);
            }
            return None;
        }
        proof {
            assert(fresh_count_rules(rv) <= u32::MAX);
        }
        Some(self.to_chomsky())
    }

    /// Normalise this EBNF grammar into a flat production list.
    ///
    /// Each rule's alternatives are expanded in order, with one fresh-name
    /// counter threaded through the whole grammar; the start symbol and all
    /// nonterminal names are canonicalised.  Succeeds exactly when the
    /// normalised grammar is closed; the error names a nonterminal that is
    /// referenced but has no rule.
    pub fn to_chomsky(&self) -> (r: Result<GrammarChomsky, GrammarError>)
        requires
            fresh_count_rules(self@.rules) <= u32::MAX,
        ensures
            r is Ok <==> {
                &&& !(exists|i: int|
                    0 <= i < self@.rules.len() && hidden_marked(
                        (#[trigger] self@.rules[i]).0,
                    ))
                &&& closed(norm_rules(self@.rules, 0))
            },
            match r {
                Ok(g) => {
                    &&& g@.rules == norm_rules(self@.rules, 0)
                    &&& g@.start == capitalized(self@.start)
                    &&& g.wf()
                },
                Err(e) => match e {
                    GrammarError::ReservedName(n) => exists|i: int|
                        0 <= i < self@.rules.len() && (#[trigger] self@.rules[i]).0 == n@
                            && hidden_marked(n@),
                    GrammarError::UndefinedNonterminal(n) => {
                        &&& rhs_non_set(norm_rules(self@.rules, 0)).contains(n@)
                        &&& !lhs_set(norm_rules(self@.rules, 0)).contains(n@)
                    },
                    _ => false,
                },
            },
    {
        let ghost rv = self@.rules;
        // user rule names must not carry the hidden-nonterminal marker
        let rcount = self.rules.len();
        let mut ri: usize = 0;
        while ri < rcount
            invariant
                rv == self@.rules,
                rcount == self.rules@.len(),
                ri <= rcount,
                rv.len() == rcount,
                forall|k: int| 0 <= k < ri ==> !hidden_marked((#[trigger] rv[k]).0),
            decreases rcount - ri,
        {
            let nm = &self.rules[ri].0;
            proof {
                assert(rv[ri as int].0 == self.rules@[ri as int].0@);
            }
            if nm.as_str().unicode_len() > 0 && nm.as_str().get_char(0) == '_' {
                proof {
                    assert(hidden_marked(rv[ri as int].0));
                }
                return Err(GrammarError::ReservedName(nm.clone()));
            }
            ri += 1;
        }
        let mut new_rules: Vec<(String, Vec<NT>)> = Vec::new();
        let mut counter: u32 = 0;
        let n = self.rules.len();
        let mut i: usize = 0;
        while i < n
            invariant
                rv == self@.rules,
                n == self.rules@.len(),
                i <= n,
                rv.len() == n,
                fresh_count_rules(rv) <= u32::MAX,
                counter as nat == fresh_count_rules(rv.take(i as int)),
                prods_view(new_rules@) == norm_rules(rv.take(i as int), 0),
            decreases n - i,
        {
            let lhs = capitalize_first_letter(self.rules[i].0.as_str());
            let ghost alts = rv[i as int].1;
            let ghost ci = counter as nat;
            let ghost basei = prods_view(new_rules@);
            proof {
                lemma_ebnf_views(self.rules@[i as int].1@);
                lemma_fresh_count_rules_elem(rv, i as int);
            }
            let m = self.rules[i].1.len();
            let mut j: usize = 0;
            while j < m
                invariant
                    rv == self@.rules,
                    n == self.rules@.len(),
                    i < n,
                    rv.len() == n,
                    m == self.rules@[i as int].1@.len(),
                    j <= m,
                    alts == rv[i as int].1,
                    alts == ebnf_views(self.rules@[i as int].1@),
                    alts.len() == m,
                    forall|k: int|
                        0 <= k < m ==> alts[k] == ebnf_view(self.rules@[i as int].1@[k]),
                    lhs@ == capitalized(rv[i as int].0),
                    ci + fresh_count_list(alts) <= u32::MAX,
                    counter as nat == ci + fresh_count_list(alts.take(j as int)),
                    prods_view(new_rules@) == basei.add(
                        expand_alts(alts.take(j as int), ci, capitalized(rv[i as int].0)),
                    ),
                decreases m - j,
            {
                proof {
                    lemma_fresh_count_elem(alts, j as int);
                }
                let ghost cmid = counter as nat;
                let syms = self.rules[i].1[j].to_chomsky(&mut new_rules, &mut counter);
                let ghost p1 = prods_view(new_rules@);
                let ghost e1 = expand(alts[j as int], cmid);
                new_rules.push((lhs.clone(), syms));
                proof {
                    assert(prods_view(new_rules@) =~= p1.push(
                        (capitalized(rv[i as int].0), e1.syms),
                    ));
                    assert(alts.take(j + 1) =~= alts.take(j as int).push(alts[j as int]));
                    lemma_expand_alts_snoc(
                        alts.take(j as int),
                        alts[j as int],
                        ci,
                        capitalized(rv[i as int].0),
                    );
                    lemma_fresh_count_list_snoc(alts.take(j as int), alts[j as int]);
                    assert(prods_view(new_rules@) =~= basei.add(
                        expand_alts(alts.take(j + 1), ci, capitalized(rv[i as int].0)),
                    ));
                }
                j += 1;
            }
            proof {
                assert(alts.take(m as int) =~= alts);
                assert(rv.take(i + 1) =~= rv.take(i as int).push(rv[i as int]));
                lemma_norm_rules_snoc(rv.take(i as int), rv[i as int], 0);
                lemma_fresh_count_rules_snoc(rv.take(i as int), rv[i as int]);
                assert(prods_view(new_rules@) =~= norm_rules(rv.take(i + 1), 0));
            }
            i += 1;
        }
        proof {
            assert(rv.take(n as int) =~= rv);
        }
        GrammarChomsky::from_rules(
            capitalize_first_letter(self.start_nonterm.as_str()),
            new_rules,
        )
    }
}

/// The rendered text of an EBNF expression.
pub open spec fn ebnf_text(e: EbnfModel) -> Seq<char>
    decreases e,
{
    match e {
        EbnfModel::Eps => seq!['\u{03b5}'],
        EbnfModel::Non(a) => a,
        EbnfModel::Term(a) => seq!['"'].add(a).add(seq!['"']),
        EbnfModel::Concat(cs) => seq!['(', ' '].add(ebnf_texts(cs, seq![' '])).add(
            seq![' ', ')'],
        ),
        EbnfModel::Or(cs) => seq!['(', ' '].add(ebnf_texts(cs, seq![' ', '|', ' '])).add(
            seq![' ', ')'],
        ),
        EbnfModel::OneOrMore(a) => seq!['(', ' '].add(ebnf_text(*a)).add(seq![' ', ')', ' ', '+']),
        EbnfModel::Optional(a) => seq!['[', ' '].add(ebnf_text(*a)).add(seq![' ', ']']),
        EbnfModel::Iteration(a) => seq!['{', ' '].add(ebnf_text(*a)).add(seq![' ', '}']),
    }
}

/// The rendered texts of a list of EBNF expressions, joined by `sep`.
pub open spec fn ebnf_texts(cs: Seq<EbnfModel>, sep: Seq<char>) -> Seq<char>
    decreases cs,
{
    if cs.len() == 0 {
        Seq::empty()
    } else if cs.len() == 1 {
        ebnf_text(cs.first())
    } else {
        ebnf_text(cs.first()).add(sep).add(ebnf_texts(cs.drop_first(), sep))
    }
}

/// The rendered text of a whole EBNF grammar: one line per rule
/// alternative, each closed by a semicolon.
pub open spec fn grammar_text(rules: Seq<(Seq<char>, Seq<EbnfModel>)>) -> Seq<char>
    decreases rules,
{
    if rules.len() == 0 {
        Seq::empty()
    } else {
        grammar_text(rules.drop_last()).add(rule_text(rules.last().0, rules.last().1))
    }
}

/// The rendered text of one rule: a line per alternative.
pub open spec fn rule_text(lhs: Seq<char>, alts: Seq<EbnfModel>) -> Seq<char>
    decreases alts,
{
    if alts.len() == 0 {
        Seq::empty()
    } else {
        rule_text(lhs, alts.drop_last()).add(seq!['\n'].add(lhs).add(seq![' ', '=', ' ']).add(
            ebnf_text(alts.last()),
        ).add(seq![' ', ';']))
    }
}

impl EBNF {
    /// Render this expression in the grammar's concrete syntax.
    fn to_ebnf(&self) -> (r: String)
        ensures
            r@ == ebnf_text(ebnf_view(*self)),
        decreases ebnf_size(ebnf_view(*self)), 0int,
    {
        let mut out = String::new();
        match self {
            EBNF::Epsilon => {
                out.push('\u{03b5}');
                proof {
                    assert(out@ =~= ebnf_text(ebnf_view(*self)));
                }
            },
            EBNF::Non(a) => {
                out.append(a.as_str());
                proof {
                    assert(out@ =~= ebnf_text(ebnf_view(*self)));
                }
            },
            EBNF::Term(a) => {
                out.push('"');
                out.append(a.as_str());
                out.push('"');
                proof {
                    assert(out@ =~= ebnf_text(ebnf_view(*self)));
                }
            },
            EBNF::Optional(b) => {
                out.push('[');
                out.push(' ');
                let inner = (**b).to_ebnf();
                out.append(inner.as_str());
                out.push(' ');
                out.push(']');
                proof {
                    assert(out@ =~= ebnf_text(ebnf_view(*self)));
                }
            },
            EBNF::Iteration(b) => {
                out.push('{');
                out.push(' ');
                let inner = (**b).to_ebnf();
                out.append(inner.as_str());
                out.push(' ');
                out.push('}');
                proof {
                    assert(out@ =~= ebnf_text(ebnf_view(*self)));
                }
            },
            EBNF::OneOrMore(b) => {
                out.push('(');
                out.push(' ');
                let inner = (**b).to_ebnf();
                out.append(inner.as_str());
                out.push(' ');
                out.push(')');
                out.push(' ');
                out.push('+');
                proof {
                    assert(out@ =~= ebnf_text(ebnf_view(*self)));
                }
            },
            EBNF::Concat(v) => {
                let joined = join_texts(v, false);
                out.push('(');
                out.push(' ');
                out.append(joined.as_str());
                out.push(' ');
                out.push(')');
                proof {
                    assert(out@ =~= ebnf_text(ebnf_view(*self)));
                }
            },
            EBNF::Or(v) => {
                let joined = join_texts(v, true);
                out.push('(');
                out.push(' ');
                out.append(joined.as_str());
                out.push(' ');
                out.push(')');
                proof {
                    assert(out@ =~= ebnf_text(ebnf_view(*self)));
                }
            },
        }
        out
    }
}

/// Render a list of EBNF expressions joined by `" | "` (for alternations)
/// or `" "` (for concatenations).
fn join_texts(v: &Vec<EBNF>, with_bar: bool) -> (r: String)
    ensures
        r@ == ebnf_texts(
            ebnf_views(v@),
            if with_bar {
                seq![' ', '|', ' ']
            } else {
                seq![' ']
            },
        ),
    decreases ebnf_size_list(ebnf_views(v@)), 1int,
{
    let ghost vs = ebnf_views(v@);
    let ghost sep: Seq<char> = if with_bar {
        seq![' ', '|', ' ']
    } else {
        seq![' ']
    };
    proof {
        lemma_ebnf_views(v@);
    }
    let mut out = String::new();
    let n = v.len();
    let mut i: usize = 0;
    while i < n
        invariant
            n == v@.len(),
            i <= n,
            vs == ebnf_views(v@),
            vs.len() == n,
            forall|k: int| 0 <= k < n ==> vs[k] == ebnf_view(v@[k]),
            sep == if with_bar {
                seq![' ', '|', ' ']
            } else {
                seq![' ']
            },
            out@ == texts_prefix(vs, sep, i as int),
        decreases n - i,
    {
        if i > 0 {
            if with_bar {
                out.push(' ');
                out.push('|');
                out.push(' ');
            } else {
                out.push(' ');
            }
        }
        proof {
            lemma_ebnf_size_elem(vs, i as int);
            assert(ebnf_size(ebnf_view(v@[i as int])) <= ebnf_size_list(ebnf_views(v@)));
        }
        let t = v[i].to_ebnf();
        out.append(t.as_str());
        proof {
            lemma_texts_prefix_step(vs, sep, i as int);
            assert(out@ =~= texts_prefix(vs, sep, i + 1));
        }
        i += 1;
    }
    proof {
        lemma_texts_prefix_full(vs, sep);
    }
    out
}

/// The join of the first `i` rendered texts.
pub open spec fn texts_prefix(cs: Seq<EbnfModel>, sep: Seq<char>, i: int) -> Seq<char>
    decreases i,
{
    if i <= 0 {
        Seq::empty()
    } else if i == 1 {
        ebnf_text(cs[0])
    } else {
        texts_prefix(cs, sep, i - 1).add(sep).add(ebnf_text(cs[i - 1]))
    }
}

pub proof fn lemma_texts_prefix_step(cs: Seq<EbnfModel>, sep: Seq<char>, i: int)
    requires
        0 <= i,
    ensures
        texts_prefix(cs, sep, i + 1) == if i == 0 {
            ebnf_text(cs[0])
        } else {
            texts_prefix(cs, sep, i).add(sep).add(ebnf_text(cs[i]))
        },
{
}

/// The full prefix join equals the recursive join.
pub proof fn lemma_texts_prefix_full(cs: Seq<EbnfModel>, sep: Seq<char>)
    ensures
        texts_prefix(cs, sep, cs.len() as int) == ebnf_texts(cs, sep),
    decreases cs.len(),
{
    reveal_with_fuel(ebnf_texts, 2);
    reveal_with_fuel(texts_prefix, 2);
    if cs.len() == 0 {
    } else if cs.len() == 1 {
        assert(cs.first() == cs[0]);
    } else {
        lemma_texts_prefix_full(cs.drop_last(), sep);
        lemma_texts_prefix_drop_last(cs, sep, cs.len() as int - 1);
        assert(cs.drop_last().len() == cs.len() - 1);
        lemma_ebnf_texts_snoc(cs, sep);
    }
}

/// Computing a prefix join does not look past the prefix.
pub proof fn lemma_texts_prefix_drop_last(cs: Seq<EbnfModel>, sep: Seq<char>, i: int)
    requires
        0 <= i < cs.len(),
    ensures
        texts_prefix(cs.drop_last(), sep, i) == texts_prefix(cs, sep, i),
    decreases i,
{
    if i > 0 {
        lemma_texts_prefix_drop_last(cs, sep, i - 1);
        assert(cs.drop_last()[i - 1] == cs[i - 1]);
    }
}

/// The join of a list ending in `x` is the join of the front, the
/// separator, and the text of `x`.
pub proof fn lemma_ebnf_texts_snoc(cs: Seq<EbnfModel>, sep: Seq<char>)
    requires
        cs.len() >= 2,
    ensures
        ebnf_texts(cs, sep) == ebnf_texts(cs.drop_last(), sep).add(sep).add(
            ebnf_text(cs.last()),
        ),
    decreases cs.len(),
{
    reveal_with_fuel(ebnf_texts, 3);
    if cs.len() == 2 {
        assert(cs.drop_first().len() == 1);
        assert(cs.drop_first().first() == cs[1]);
        assert(cs.drop_last().len() == 1);
        assert(cs.drop_last().first() == cs[0]);
        assert(ebnf_texts(cs, sep) =~= ebnf_texts(cs.drop_last(), sep).add(sep).add(
            ebnf_text(cs.last()),
        ));
    } else {
        lemma_ebnf_texts_snoc(cs.drop_first(), sep);
        assert(cs.drop_first().drop_last() =~= cs.drop_last().drop_first());
        assert(cs.drop_first().last() == cs.last());
        assert(cs.drop_last().first() == cs.first());
        assert(cs.drop_last().len() == cs.len() - 1);
        assert(ebnf_texts(cs, sep) =~= ebnf_texts(cs.drop_last(), sep).add(sep).add(
            ebnf_text(cs.last()),
        ));
    }
}

impl GrammarEBNF {
    /// Render the whole grammar, one line per rule alternative.
    pub fn to_ebnf(&self) -> (r: String)
        ensures
            r@ == grammar_text(self@.rules),
    {
        let ghost rv = self@.rules;
        let mut out = String::new();
        let n = self.rules.len();
        let mut i: usize = 0;
        while i < n
            invariant
                rv == self@.rules,
                n == self.rules@.len(),
                i <= n,
                rv.len() == n,
                out@ == grammar_text(rv.take(i as int)),
            decreases n - i,
        {
            let ghost alts = rv[i as int].1;
            proof {
                lemma_ebnf_views(self.rules@[i as int].1@);
            }
            let m = self.rules[i].1.len();
            let mut j: usize = 0;
            while j < m
                invariant
                    rv == self@.rules,
                    n == self.rules@.len(),
                    i < n,
                    rv.len() == n,
                    m == self.rules@[i as int].1@.len(),
                    j <= m,
                    alts == rv[i as int].1,
                    alts.len() == m,
                    forall|k: int|
                        0 <= k < m ==> alts[k] == ebnf_view(self.rules@[i as int].1@[k]),
                    out@ == grammar_text(rv.take(i as int)).add(
                        rule_text(rv[i as int].0, alts.take(j as int)),
                    ),
                decreases m - j,
            {
                out.push('\n');
                out.append(self.rules[i].0.as_str());
                out.push(' ');
                out.push('=');
                out.push(' ');
                let t = self.rules[i].1[j].to_ebnf();
                out.append(t.as_str());
                out.push(' ');
                out.push(';');
                proof {
                    assert(alts.take(j + 1).drop_last() =~= alts.take(j as int));
                    assert(alts.take(j + 1).last() == alts[j as int]);
                    assert(out@ =~= grammar_text(rv.take(i as int)).add(
                        rule_text(rv[i as int].0, alts.take(j + 1)),
                    ));
                }
                j += 1;
            }
            proof {
                assert(alts.take(m as int) =~= alts);
                assert(rv.take(i + 1).drop_last() =~= rv.take(i as int));
                assert(rv.take(i + 1).last() == rv[i as int]);
                assert(out@ =~= grammar_text(rv.take(i + 1)));
            }
            i += 1;
        }
        proof {
            assert(rv.take(n as int) =~= rv);
        }
        out
    }
}

/// Copy a symbol vector.
fn clone_syms(v: &Vec<NT>) -> (r: Vec<NT>)
    ensures
        syms_view(r@) == syms_view(v@),
{
    let mut r: Vec<NT> = Vec::new();
    let n = v.len();
    let mut i: usize = 0;
    while i < n
        invariant
            n == v@.len(),
            i <= n,
            r@.len() == i,
            forall|j: int| 0 <= j < i ==> r@[j]@ == v@[j]@,
        decreases n - i,
    {
        r.push(v[i].clone());
        i += 1;
    }
    proof {
        assert(syms_view(r@) =~= syms_view(v@));
    }
    r
}

/// The Unicode uppercase mapping of a character: one or more characters,
/// a function of the character alone.
pub uninterp spec fn upper_of(c: char) -> Seq<char>;

/// Relies on char::to_uppercase: yields the Unicode uppercase mapping of
/// the character (the character itself where it has none).
#[verifier::external_body]
fn uppercase_char(c: char) -> (r: String)
    ensures
        r@ == upper_of(c),
{
    c.to_uppercase().collect::<String>()
}

/// Canonical form of a nonterminal name: the first character replaced by
/// its Unicode uppercase mapping, the rest unchanged.
pub open spec fn capitalized(s: Seq<char>) -> Seq<char> {
    if s.len() == 0 {
        s
    } else {
        upper_of(s[0]).add(s.subrange(1, s.len() as int))
    }
}

/// Uppercase the first character of a name, leaving the rest unchanged.
pub fn capitalize_first_letter(s: &str) -> (r: String)
    ensures
        r@ == capitalized(s@),
{
    let n = s.unicode_len();
    if n == 0 {
        let r = String::new();
        proof {
            assert(r@ =~= capitalized(s@));
        }
        return r;
    }
    let first = s.get_char(0);
    let mut r = uppercase_char(first);
    let rest = s.substring_char(1, n);
    r.append(rest);
    proof {
        assert(r@ =~= capitalized(s@));
    }
    r
}

} // verus!
