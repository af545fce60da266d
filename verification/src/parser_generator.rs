//! Parser generation: FIRST and FOLLOW fixed points, the LL(1) parse
//! table, the longest-match tokenizer and the predictive parser driver.
//!
//! Epsilon is represented by the empty literal throughout the set
//! computations; end-of-input is the empty literal in FOLLOW sets and in
//! the parse table.

use vstd::prelude::*;
use vstd::set_lib::lemma_len_subset;

use crate::grammar::hidden_marked;
use crate::grammar::lhs_set;
use crate::grammar::rhs_non_set;
use crate::grammar::GrammarChomsky;
use crate::grammar::GrammarError;
use crate::grammar::SymModel;
use crate::grammar::NT;
use crate::sets::lemma_sum_sizes_bound;
use crate::sets::lemma_sum_sizes_zero;
use crate::sets::lemma_sum_sizes_update;
use crate::sets::sum_sizes;
use crate::sets::LitSet;
use crate::sets::SetMap;

verus! {

/// The empty literal, standing for epsilon and for end-of-input.
pub open spec fn eps() -> Seq<char> {
    Seq::empty()
}

/// FIRST of a single symbol under the per-nonterminal table `m`.
pub open spec fn sym_first1(s: SymModel, m: Map<Seq<char>, Set<Seq<char>>>) -> Set<Seq<char>> {
    match s {
        SymModel::Term(t) => set![t],
        SymModel::Eps => set![eps()],
        SymModel::Non(n) => if m.dom().contains(n) {
            m[n]
        } else {
            Set::empty()
        },
    }
}

/// Whether the walk continues past a symbol: terminals stop it unless
/// empty, nonterminals stop it unless nullable.
pub open spec fn sym_nullable(s: SymModel, m: Map<Seq<char>, Set<Seq<char>>>) -> bool {
    sym_first1(s, m).contains(eps())
}

/// FIRST of the right-hand-side suffix starting at `j`, walking left to
/// right and stopping at the first symbol that cannot yield epsilon.
pub open spec fn rhs_first_from(
    rhs: Seq<SymModel>,
    j: int,
    m: Map<Seq<char>, Set<Seq<char>>>,
) -> Set<Seq<char>>
    decreases rhs.len() - j,
{
    if j < 0 || j >= rhs.len() {
        Set::empty()
    } else {
        let f = sym_first1(rhs[j], m);
        if f.contains(eps()) {
            f.union(rhs_first_from(rhs, j + 1, m))
        } else {
            f
        }
    }
}

/// Pointwise inclusion of per-nonterminal tables.
pub open spec fn map_le(
    m1: Map<Seq<char>, Set<Seq<char>>>,
    m2: Map<Seq<char>, Set<Seq<char>>>,
) -> bool {
    &&& m1.dom().subset_of(m2.dom())
    &&& forall|n: Seq<char>| #[trigger]
        m1.dom().contains(n) ==> m1[n].subset_of(m2[n])
}

/// The suffix FIRST walk is monotone in the per-nonterminal table.
pub proof fn lemma_rhs_first_mono(
    rhs: Seq<SymModel>,
    j: int,
    m1: Map<Seq<char>, Set<Seq<char>>>,
    m2: Map<Seq<char>, Set<Seq<char>>>,
)
    requires
        map_le(m1, m2),
    ensures
        rhs_first_from(rhs, j, m1).subset_of(rhs_first_from(rhs, j, m2)),
    decreases rhs.len() - j,
{
    if 0 <= j < rhs.len() {
        let f1 = sym_first1(rhs[j], m1);
        let f2 = sym_first1(rhs[j], m2);
        assert(f1.subset_of(f2));
        lemma_rhs_first_mono(rhs, j + 1, m1, m2);
        if f1.contains(eps()) {
            assert(f2.contains(eps()));
        }
    }
}

/// Every literal a FIRST walk can yield: the grammar's terminal
/// literals and epsilon.
pub open spec fn lit_universe(rules: Seq<(Seq<char>, Seq<SymModel>)>) -> Set<Seq<char>> {
    term_lit_set(rules).insert(eps())
}

/// A per-nonterminal table bounded by the literal universe keeps the
/// FIRST walk inside it.
pub proof fn lemma_rhs_first_bounded(
    rules: Seq<(Seq<char>, Seq<SymModel>)>,
    i: int,
    j: int,
    m: Map<Seq<char>, Set<Seq<char>>>,
)
    requires
        0 <= i < rules.len(),
        forall|n: Seq<char>| #[trigger]
            m.dom().contains(n) ==> m[n].subset_of(lit_universe(rules)),
    ensures
        rhs_first_from(rules[i].1, j, m).subset_of(lit_universe(rules)),
    decreases rules[i].1.len() - j,
{
    let rhs = rules[i].1;
    if 0 <= j < rhs.len() {
        lemma_rhs_first_bounded(rules, i, j + 1, m);
        match rhs[j] {
            SymModel::Term(t) => {
                assert(rules[i].1[j] == SymModel::Term(t));
                assert(term_lit_set(rules).contains(t));
            },
            SymModel::Eps => {},
            SymModel::Non(n) => {},
        }
    }
}

/// Tracking growth across two monotone steps.
proof fn lemma_grow_track(pf0: Set<Seq<char>>, cur: Set<Seq<char>>, post: Set<Seq<char>>)
    requires
        pf0.subset_of(cur),
        cur.subset_of(post),
    ensures
        (post != pf0) == ((cur != pf0) || (post != cur)),
{
    if cur == pf0 && post == cur {
        assert(post == pf0);
    }
    if post == pf0 {
        assert(cur =~= pf0);
        assert(post =~= cur);
    }
}

/// The exact fixed point that the FIRST engine returns: per-production
/// sets equal the FIRST walk of their right-hand side, and each
/// nonterminal's set is the union of its productions' sets.
pub open spec fn first_tables_ok(
    rules: Seq<(Seq<char>, Seq<SymModel>)>,
    pf: Seq<Set<Seq<char>>>,
    m: Map<Seq<char>, Set<Seq<char>>>,
) -> bool {
    &&& pf.len() == rules.len()
    &&& m.dom() == lhs_set(rules)
    &&& forall|i: int| 0 <= i < rules.len() ==> #[trigger] pf[i] == rhs_first_from(
        rules[i].1,
        0,
        m,
    )
    &&& forall|i: int| 0 <= i < rules.len() ==> (#[trigger] pf[i]).subset_of(m[rules[i].0])
    &&& forall|n: Seq<char>, x: Seq<char>|
        m.dom().contains(n) && #[trigger] m[n].contains(x) ==> exists|i: int|
            0 <= i < rules.len() && rules[i].0 == n && (#[trigger] pf[i]).contains(x)
}

/// The abstract per-production sets of a vector of literal sets.
pub open spec fn sets_view(pf: Seq<LitSet>) -> Seq<Set<Seq<char>>> {
    pf.map_values(|s: LitSet| s.set())
}

/// A per-nonterminal table closed under one FIRST step: it covers every
/// left-hand side and absorbs the FIRST walk of every production.
pub open spec fn first_point_closed(
    rules: Seq<(Seq<char>, Seq<SymModel>)>,
    m: Map<Seq<char>, Set<Seq<char>>>,
) -> bool {
    &&& lhs_set(rules).subset_of(m.dom())
    &&& forall|i: int|
        0 <= i < rules.len() ==> rhs_first_from((#[trigger] rules[i]).1, 0, m).subset_of(
            m[rules[i].0],
        )
}

/// One FIRST walk over production `i`: adds the FIRST of its right-hand
/// side, computed under the current per-nonterminal table, to its set.
fn first_walk(g: &GrammarChomsky, i: usize, pf: &mut Vec<LitSet>, sym: &SetMap) -> (added: bool)
    requires
        i < g@.rules.len(),
        old(pf)@.len() == g@.rules.len(),
        forall|k: int| 0 <= k < old(pf)@.len() ==> (#[trigger] old(pf)@[k]).wf(),
        sym.wf(),
    ensures
        final(pf)@.len() == old(pf)@.len(),
        forall|k: int|
            0 <= k < final(pf)@.len() && k != i ==> final(pf)@[k] == old(pf)@[k],
        forall|k: int| 0 <= k < final(pf)@.len() ==> (#[trigger] final(pf)@[k]).wf(),
        final(pf)@[i as int].set() == old(pf)@[i as int].set().union(
            rhs_first_from(g@.rules[i as int].1, 0, sym.map()),
        ),
        added == (final(pf)@[i as int].set() != old(pf)@[i as int].set()),
        final(pf)@[i as int].lits().len() >= old(pf)@[i as int].lits().len(),
        added ==> final(pf)@[i as int].lits().len() > old(pf)@[i as int].lits().len(),
        !added ==> final(pf)@[i as int].lits().len() == old(pf)@[i as int].lits().len(),
{
    let ghost rhs = g@.rules[i as int].1;
    let ghost m = sym.map();
    let ghost pf0 = pf@[i as int].set();
    let rhs_len = g.rules[i].1.len();
    proof {
        assert(rhs.len() == rhs_len);
    }
    let mut j: usize = 0;
    let mut walking = true;
    let mut added = false;
    while walking && j < rhs_len
        invariant
            i < g@.rules.len(),
            rhs == g@.rules[i as int].1,
            m == sym.map(),
            sym.wf(),
            rhs_len == rhs.len(),
            j <= rhs_len,
            pf@.len() == old(pf)@.len(),
            old(pf)@.len() == g@.rules.len(),
            forall|k: int| 0 <= k < pf@.len() && k != i ==> pf@[k] == old(pf)@[k],
            forall|k: int| 0 <= k < pf@.len() ==> (#[trigger] pf@[k]).wf(),
            pf0 == old(pf)@[i as int].set(),
            pf0.subset_of(pf@[i as int].set()),
            walking ==> pf@[i as int].set().union(rhs_first_from(rhs, j as int, m)) == pf0.union(
                rhs_first_from(rhs, 0, m),
            ),
            !walking ==> pf@[i as int].set() == pf0.union(rhs_first_from(rhs, 0, m)),
            added == (pf@[i as int].set() != pf0),
        decreases rhs_len - j,
    {
        let ghost cur = pf@[i as int].set();
        let ghost frest = rhs_first_from(rhs, j + 1, m);
        match &g.rules[i].1[j] {
            NT::Term(t) => {
                proof {
                    assert(rhs[j as int] == SymModel::Term(t@));
                }
                let a = pf[i].insert_lit(t);
                proof {
                    if !a {
                        assert(pf@[i as int].set() =~= cur);
                    } else {
                        assert(pf@[i as int].set().contains(t@));
                        assert(!cur.contains(t@));
                        assert(pf@[i as int].set() != cur);
                    }
                    lemma_grow_track(pf0, cur, pf@[i as int].set());
                    assert((added || a) == (pf@[i as int].set() != pf0));
                }
                added = added || a;
                if !t.as_str().is_empty() {
                    walking = false;
                    proof {
                        assert(sym_first1(rhs[j as int], m) =~= set![t@]);
                        assert(!sym_first1(rhs[j as int], m).contains(eps()));
                        assert(rhs_first_from(rhs, j as int, m) =~= set![t@]);
                        assert(pf@[i as int].set() =~= cur.union(rhs_first_from(rhs, j as int, m)));
                        assert(pf@[i as int].set() =~= pf0.union(rhs_first_from(rhs, 0, m)));
                    }
                } else {
                    proof {
                        assert(t@ == eps());
                        assert(sym_first1(rhs[j as int], m) =~= set![eps()]);
                        assert(rhs_first_from(rhs, j as int, m) =~= set![eps()].union(frest));
                        assert(pf@[i as int].set().union(frest) =~= cur.union(
                            rhs_first_from(rhs, j as int, m),
                        ));
                        assert(pf@[i as int].set().union(rhs_first_from(rhs, j + 1, m)) =~= pf0.union(
                            rhs_first_from(rhs, 0, m),
                        ));
                    }
                }
            },
            NT::Epsilon => {
                proof {
                    assert(rhs[j as int] == SymModel::Eps);
                }
                let e = String::new();
                let a = pf[i].insert_lit(&e);
                proof {
                    if !a {
                        assert(pf@[i as int].set() =~= cur);
                    } else {
                        assert(pf@[i as int].set().contains(e@));
                        assert(!cur.contains(e@));
                        assert(pf@[i as int].set() != cur);
                    }
                    lemma_grow_track(pf0, cur, pf@[i as int].set());
                    assert((added || a) == (pf@[i as int].set() != pf0));
                }
                added = added || a;
                proof {
                    assert(sym_first1(rhs[j as int], m) =~= set![eps()]);
                    assert(rhs_first_from(rhs, j as int, m) =~= set![eps()].union(frest));
                    assert(pf@[i as int].set().union(frest) =~= cur.union(
                        rhs_first_from(rhs, j as int, m),
                    ));
                    assert(pf@[i as int].set().union(rhs_first_from(rhs, j + 1, m)) =~= pf0.union(
                        rhs_first_from(rhs, 0, m),
                    ));
                }
            },
            NT::Non(nm) => {
                proof {
                    assert(rhs[j as int] == SymModel::Non(nm@));
                }
                match sym.get(nm) {
                    Some(f) => {
                        let e = String::new();
                        let nullable = f.contains_lit(&e);
                        let a = pf[i].union_from(f);
                        proof {
                            if !a {
                                assert(pf@[i as int].set() =~= cur);
                            } else {
                                let w = choose|w: Seq<char>|
                                    f.set().contains(w) && !cur.contains(w);
                                assert(pf@[i as int].set().contains(w));
                                assert(pf@[i as int].set() != cur);
                            }
                            lemma_grow_track(pf0, cur, pf@[i as int].set());
                            assert((added || a) == (pf@[i as int].set() != pf0));
                            assert(sym_first1(rhs[j as int], m) == f.set());
                        }
                        added = added || a;
                        if nullable {
                            proof {
                                assert(sym_first1(rhs[j as int], m).contains(eps()));
                                assert(rhs_first_from(rhs, j as int, m) =~= f.set().union(frest));
                                assert(pf@[i as int].set().union(frest) =~= cur.union(
                                    rhs_first_from(rhs, j as int, m),
                                ));
                                assert(pf@[i as int].set().union(rhs_first_from(rhs, j + 1, m))
                                    =~= pf0.union(rhs_first_from(rhs, 0, m)));
                            }
                        } else {
                            walking = false;
                            proof {
                                assert(!sym_first1(rhs[j as int], m).contains(eps()));
                                assert(rhs_first_from(rhs, j as int, m) =~= f.set());
                                assert(pf@[i as int].set() =~= cur.union(
                                    rhs_first_from(rhs, j as int, m),
                                ));
                                assert(pf@[i as int].set() =~= pf0.union(
                                    rhs_first_from(rhs, 0, m),
                                ));
                            }
                        }
                    },
                    None => {
                        walking = false;
                        proof {
                            assert(sym_first1(rhs[j as int], m) =~= Set::<Seq<char>>::empty());
                            assert(!sym_first1(rhs[j as int], m).contains(eps()));
                            assert(rhs_first_from(rhs, j as int, m) =~= Set::<Seq<char>>::empty());
                            assert(pf@[i as int].set() =~= cur.union(
                                rhs_first_from(rhs, j as int, m),
                            ));
                            assert(pf@[i as int].set() =~= pf0.union(rhs_first_from(rhs, 0, m)));
                        }
                    },
                }
            },
        }
        j += 1;
    }
    proof {
        if walking {
            assert(j == rhs_len);
            assert(rhs_first_from(rhs, j as int, m) =~= Set::<Seq<char>>::empty());
            assert(pf@[i as int].set() =~= pf@[i as int].set().union(
                rhs_first_from(rhs, j as int, m),
            ));
        }
        old(pf)@[i as int].lemma_card();
        pf@[i as int].lemma_card();
        lemma_len_subset(old(pf)@[i as int].set(), pf@[i as int].set());
        if added {
            assert(!pf@[i as int].set().subset_of(old(pf)@[i as int].set())) by {
                if pf@[i as int].set().subset_of(old(pf)@[i as int].set()) {
                    assert(pf@[i as int].set() =~= old(pf)@[i as int].set());
                }
            }
            let w = choose|w: Seq<char>|
                pf@[i as int].set().contains(w) && !old(pf)@[i as int].set().contains(w);
            assert(old(pf)@[i as int].set().insert(w).subset_of(pf@[i as int].set()));
            lemma_len_subset(old(pf)@[i as int].set().insert(w), pf@[i as int].set());
        } else {
            lemma_len_subset(pf@[i as int].set(), old(pf)@[i as int].set());
        }
    }
    added
}

/// One full FIRST pass over all productions: walks each right-hand side
/// and merges each production's set into its nonterminal's set.
fn first_pass(g: &GrammarChomsky, pf: &mut Vec<LitSet>, sym: &mut SetMap) -> (changed: bool)
    requires
        old(pf)@.len() == g@.rules.len(),
        forall|k: int| 0 <= k < old(pf)@.len() ==> (#[trigger] old(pf)@[k]).wf(),
        old(sym).wf(),
        forall|k: int|
            0 <= k < old(pf)@.len() ==> (#[trigger] old(pf)@[k].set()).subset_of(
                lit_universe(g@.rules),
            ),
        forall|n: Seq<char>| #[trigger]
            old(sym).map().dom().contains(n) ==> old(sym).map()[n].subset_of(
                lit_universe(g@.rules),
            ),
        old(sym).map().dom().subset_of(lhs_set(g@.rules)),
        forall|m2: Map<Seq<char>, Set<Seq<char>>>|
            #[trigger] first_point_closed(g@.rules, m2) ==> {
                &&& forall|n: Seq<char>| #[trigger]
                    old(sym).map().dom().contains(n) ==> old(sym).map()[n].subset_of(m2[n])
                &&& forall|k: int|
                    0 <= k < old(pf)@.len() ==> (#[trigger] old(pf)@[k].set()).subset_of(
                        rhs_first_from(g@.rules[k].1, 0, m2),
                    )
            },
    ensures
        forall|k: int|
            0 <= k < final(pf)@.len() ==> (#[trigger] final(pf)@[k].set()).subset_of(
                lit_universe(g@.rules),
            ),
        forall|n: Seq<char>| #[trigger]
            final(sym).map().dom().contains(n) ==> final(sym).map()[n].subset_of(
                lit_universe(g@.rules),
            ),
        sum_sizes(final(pf)@) + final(sym).total() + final(sym).key_seq().len() >= sum_sizes(
            old(pf)@,
        ) + old(sym).total() + old(sym).key_seq().len(),
        forall|m2: Map<Seq<char>, Set<Seq<char>>>|
            #[trigger] first_point_closed(g@.rules, m2) ==> {
                &&& forall|n: Seq<char>| #[trigger]
                    final(sym).map().dom().contains(n) ==> final(sym).map()[n].subset_of(m2[n])
                &&& forall|k: int|
                    0 <= k < final(pf)@.len() ==> (#[trigger] final(pf)@[k].set()).subset_of(
                        rhs_first_from(g@.rules[k].1, 0, m2),
                    )
            },
        changed ==> sum_sizes(final(pf)@) + final(sym).total() + final(sym).key_seq().len()
            > sum_sizes(old(pf)@) + old(sym).total() + old(sym).key_seq().len(),
        final(pf)@.len() == g@.rules.len(),
        forall|k: int| 0 <= k < final(pf)@.len() ==> (#[trigger] final(pf)@[k]).wf(),
        final(sym).wf(),
        forall|k: int|
            0 <= k < final(pf)@.len() ==> (#[trigger] old(pf)@[k].set()).subset_of(
                final(pf)@[k].set(),
            ),
        map_le(old(sym).map(), final(sym).map()),
        final(sym).map().dom() == old(sym).map().dom().union(lhs_set(g@.rules)),
        forall|k: int|
            0 <= k < final(pf)@.len() ==> (#[trigger] final(pf)@[k].set()).subset_of(
                old(pf)@[k].set().union(rhs_first_from(g@.rules[k].1, 0, final(sym).map())),
            ),
        forall|n: Seq<char>, x: Seq<char>|
            final(sym).map().dom().contains(n) && #[trigger] final(sym).map()[n].contains(x)
                ==> (old(sym).map().dom().contains(n) && old(sym).map()[n].contains(x))
                || exists|k: int|
                0 <= k < final(pf)@.len() && g@.rules[k].0 == n
                    && (#[trigger] final(pf)@[k].set()).contains(x),
        !changed ==> {
            &&& forall|k: int|
                0 <= k < final(pf)@.len() ==> #[trigger] final(pf)@[k].set()
                    == old(pf)@[k].set()
            &&& final(sym).map() == old(sym).map()
            &&& forall|k: int|
                0 <= k < final(pf)@.len() ==> rhs_first_from(
                    g@.rules[k].1,
                    0,
                    final(sym).map(),
                ).subset_of(#[trigger] final(pf)@[k].set())
            &&& forall|k: int|
                0 <= k < final(pf)@.len() ==> (#[trigger] final(pf)@[k].set()).subset_of(
                    final(sym).map()[g@.rules[k].0],
                )
        },
{
    let n = g.rules.len();
    let mut changed = false;
    let mut i: usize = 0;
    while i < n
        invariant
            n == g@.rules.len(),
            i <= n,
            pf@.len() == n,
            forall|k: int| 0 <= k < pf@.len() ==> (#[trigger] pf@[k]).wf(),
            sym.wf(),
            forall|k: int|
                0 <= k < pf@.len() ==> (#[trigger] old(pf)@[k].set()).subset_of(pf@[k].set()),
            map_le(old(sym).map(), sym.map()),
            sym.map().dom() == old(sym).map().dom().union(
                Set::new(
                    |nm: Seq<char>|
                        exists|k: int| 0 <= k < i && (#[trigger] g@.rules[k]).0 == nm,
                ),
            ),
            forall|k: int|
                0 <= k < pf@.len() ==> (#[trigger] pf@[k].set()).subset_of(
                    old(pf)@[k].set().union(rhs_first_from(g@.rules[k].1, 0, sym.map())),
                ),
            forall|nm: Seq<char>, x: Seq<char>|
                sym.map().dom().contains(nm) && #[trigger] sym.map()[nm].contains(x) ==> (old(
                    sym,
                ).map().dom().contains(nm) && old(sym).map()[nm].contains(x)) || exists|k: int|
                    0 <= k < pf@.len() && g@.rules[k].0 == nm && (#[trigger] pf@[k].set()).contains(
                        x,
                    ),
            forall|k: int|
                0 <= k < pf@.len() ==> (#[trigger] pf@[k].set()).subset_of(
                    lit_universe(g@.rules),
                ),
            forall|nm: Seq<char>| #[trigger]
                sym.map().dom().contains(nm) ==> sym.map()[nm].subset_of(lit_universe(g@.rules)),
            sum_sizes(pf@) + sym.total() + sym.key_seq().len() >= sum_sizes(old(pf)@) + old(
                sym,
            ).total() + old(sym).key_seq().len(),
            changed ==> sum_sizes(pf@) + sym.total() + sym.key_seq().len() > sum_sizes(
                old(pf)@,
            ) + old(sym).total() + old(sym).key_seq().len(),
            old(sym).map().dom().subset_of(lhs_set(g@.rules)),
            sym.map().dom().subset_of(lhs_set(g@.rules).union(old(sym).map().dom())),
            forall|m2: Map<Seq<char>, Set<Seq<char>>>|
                #[trigger] first_point_closed(g@.rules, m2) ==> {
                    &&& forall|n: Seq<char>| #[trigger]
                        sym.map().dom().contains(n) ==> sym.map()[n].subset_of(m2[n])
                    &&& forall|k: int|
                        0 <= k < pf@.len() ==> (#[trigger] pf@[k].set()).subset_of(
                            rhs_first_from(g@.rules[k].1, 0, m2),
                        )
                },
            !changed ==> {
                &&& forall|k: int|
                    0 <= k < pf@.len() ==> #[trigger] pf@[k].set() == old(pf)@[k].set()
                &&& sym.map() == old(sym).map()
                &&& forall|k: int|
                    0 <= k < i ==> rhs_first_from(g@.rules[k].1, 0, sym.map()).subset_of(
                        #[trigger] pf@[k].set(),
                    )
                &&& forall|k: int|
                    0 <= k < i ==> (#[trigger] pf@[k].set()).subset_of(
                        sym.map()[g@.rules[k].0],
                    )
            },
        decreases n - i,
    {
        let ghost m_pre = sym.map();
        let ghost pf_pre = pf@;
        let ghost pot_pre = sum_sizes(pf@) + sym.total() + sym.key_seq().len();
        let a1 = first_walk(g, i, pf, sym);
        let ghost m_mid = sym.map();
        let had = sym.get(&g.rules[i].0).is_some();
        let a2 = sym.union_into(&g.rules[i].0, &pf[i]);
        let ghost lhs = g@.rules[i as int].0;
        proof {
            // the walk and the merge stay inside the literal universe
            assert(pf@ =~= pf_pre.update(i as int, pf@[i as int]));
            lemma_sum_sizes_update(pf_pre, i as int, pf@[i as int]);
            lemma_rhs_first_bounded(g@.rules, i as int, 0, m_pre);
            assert(pf@[i as int].set().subset_of(lit_universe(g@.rules)));
            assert forall|nm: Seq<char>| #[trigger]
                sym.map().dom().contains(nm) implies sym.map()[nm].subset_of(
                lit_universe(g@.rules),
            ) by {
                if nm == lhs {
                    assert(sym.map()[nm] == m_mid.insert(
                        lhs,
                        (if m_mid.dom().contains(lhs) {
                            m_mid[lhs]
                        } else {
                            Set::empty()
                        }).union(pf@[i as int].set()),
                    )[nm]);
                }
            }
            // below every table closed under one FIRST step
            assert forall|m2: Map<Seq<char>, Set<Seq<char>>>|
                #[trigger] first_point_closed(g@.rules, m2) implies {
                &&& forall|nm: Seq<char>| #[trigger]
                    sym.map().dom().contains(nm) ==> sym.map()[nm].subset_of(m2[nm])
                &&& forall|k: int|
                    0 <= k < pf@.len() ==> (#[trigger] pf@[k].set()).subset_of(
                        rhs_first_from(g@.rules[k].1, 0, m2),
                    )
            } by {
                assert(map_le(m_pre, m2)) by {
                    assert forall|nm: Seq<char>| #[trigger]
                        m_pre.dom().contains(nm) implies m_pre[nm].subset_of(m2[nm]) by {}
                }
                assert forall|k: int|
                    0 <= k < pf@.len() implies (#[trigger] pf@[k].set()).subset_of(
                    rhs_first_from(g@.rules[k].1, 0, m2),
                ) by {
                    lemma_rhs_first_mono(g@.rules[k].1, 0, m_pre, m2);
                    if k != i {
                        assert(pf@[k] == pf_pre[k]);
                        assert(pf_pre[k].set().subset_of(rhs_first_from(g@.rules[k].1, 0, m2)));
                    } else {
                        assert(pf@[k].set() == pf_pre[k].set().union(
                            rhs_first_from(g@.rules[k].1, 0, m_pre),
                        ));
                        assert(pf_pre[k].set().subset_of(rhs_first_from(g@.rules[k].1, 0, m2)));
                    }
                }
                assert forall|nm: Seq<char>| #[trigger]
                    sym.map().dom().contains(nm) implies sym.map()[nm].subset_of(m2[nm]) by {
                    if nm == lhs {
                        assert(lhs_set(g@.rules).contains(lhs));
                        assert(rhs_first_from(g@.rules[i as int].1, 0, m2).subset_of(m2[lhs]));
                        assert(pf@[i as int].set().subset_of(m2[lhs]));
                        if m_mid.dom().contains(nm) {
                            assert(m_mid[nm].subset_of(m2[nm]));
                        }
                    } else {
                        assert(m_mid.dom().contains(nm) && sym.map()[nm] == m_mid[nm]);
                    }
                }
            }
            // the potential never falls, and grows on any change
            assert(sum_sizes(pf@) >= sum_sizes(pf_pre));
            if a1 {
                assert(sum_sizes(pf@) > sum_sizes(pf_pre));
            }
            assert(sum_sizes(pf@) + sym.total() + sym.key_seq().len() >= pot_pre);
            if a1 || a2 || !had {
                assert(sum_sizes(pf@) + sym.total() + sym.key_seq().len() > pot_pre);
            }
        }
        proof {
            // monotonicity of the per-nonterminal table across this step
            assert(map_le(m_pre, sym.map())) by {
                assert forall|nm: Seq<char>| #[trigger]
                    m_pre.dom().contains(nm) implies m_pre[nm].subset_of(sym.map()[nm]) by {}
            }
            // re-justify every production set under the grown table
            assert forall|k: int| 0 <= k < pf@.len() implies (#[trigger] pf@[k].set()).subset_of(
                old(pf)@[k].set().union(rhs_first_from(g@.rules[k].1, 0, sym.map())),
            ) by {
                lemma_rhs_first_mono(g@.rules[k].1, 0, m_pre, sym.map());
                if k != i {
                    assert(pf@[k] == pf_pre[k]);
                    assert(pf_pre[k].set().subset_of(
                        old(pf)@[k].set().union(rhs_first_from(g@.rules[k].1, 0, m_pre)),
                    ));
                } else {
                    assert(pf@[k].set() == pf_pre[k].set().union(
                        rhs_first_from(g@.rules[k].1, 0, m_pre),
                    ));
                    assert(pf_pre[k].set().subset_of(
                        old(pf)@[k].set().union(rhs_first_from(g@.rules[k].1, 0, m_pre)),
                    ));
                }
            }
            // the new nonterminal entry is justified by production i
            assert forall|nm: Seq<char>, x: Seq<char>|
                sym.map().dom().contains(nm) && #[trigger] sym.map()[nm].contains(x) implies (old(
                sym,
            ).map().dom().contains(nm) && old(sym).map()[nm].contains(x)) || exists|k: int|
                0 <= k < pf@.len() && g@.rules[k].0 == nm && (#[trigger] pf@[k].set()).contains(
                    x,
                ) by {
                if nm == lhs && !(m_mid.dom().contains(nm) && m_mid[nm].contains(x)) {
                    assert(pf@[i as int].set().contains(x));
                    assert(g@.rules[i as int].0 == nm);
                } else {
                    assert(m_mid.dom().contains(nm) && m_mid[nm].contains(x));
                    if !(old(sym).map().dom().contains(nm) && old(sym).map()[nm].contains(x)) {
                        let k = choose|k: int|
                            0 <= k < pf_pre.len() && g@.rules[k].0 == nm && (
                            #[trigger] pf_pre[k].set()).contains(x);
                        assert(pf@[k].set().contains(x));
                    }
                }
            }
            // domain bookkeeping
            assert(sym.map().dom() =~= old(sym).map().dom().union(
                Set::new(
                    |nm: Seq<char>|
                        exists|k: int| 0 <= k < i + 1 && (#[trigger] g@.rules[k]).0 == nm,
                ),
            ));
        }
        let step_changed = a1 || a2 || !had;
        proof {
            if !step_changed {
                assert(pf@[i as int].set() == pf_pre[i as int].set());
                assert(m_mid == m_pre);
                assert(sym.map() =~= m_mid.insert(lhs, m_mid[lhs].union(pf@[i as int].set())));
                assert(m_mid[lhs].union(pf@[i as int].set()) =~= m_mid[lhs]);
                assert(sym.map() =~= m_mid);
                assert(rhs_first_from(g@.rules[i as int].1, 0, sym.map()).subset_of(
                    pf@[i as int].set(),
                ));
                assert(pf@[i as int].set().subset_of(sym.map()[lhs]));
            }
        }
        changed = changed || step_changed;
        i += 1;
    }
    proof {
        assert(Set::new(
            |nm: Seq<char>| exists|k: int| 0 <= k < n && (#[trigger] g@.rules[k]).0 == nm,
        ) =~= lhs_set(g@.rules));
    }
    changed
}

/// The iteration potential is bounded: all sets live inside the finite
/// literal universe, and there are at most as many nonterminal entries as
/// productions.
proof fn lemma_pot_bounded(
    rules: Seq<(Seq<char>, Seq<SymModel>)>,
    pf: Seq<LitSet>,
    sym: SetMap,
    u: Set<Seq<char>>,
    ucard: int,
)
    requires
        u.finite(),
        u.len() <= ucard,
        pf.len() == rules.len(),
        forall|k: int| 0 <= k < pf.len() ==> (#[trigger] pf[k]).wf(),
        forall|k: int| 0 <= k < pf.len() ==> (#[trigger] pf[k].set()).subset_of(u),
        sym.wf(),
        sym.map().dom().subset_of(lhs_set(rules)),
        forall|nm: Seq<char>| #[trigger]
            sym.map().dom().contains(nm) ==> sym.map()[nm].subset_of(u),
    ensures
        sum_sizes(pf) + sym.total() + sym.key_seq().len() <= 2 * rules.len() * (ucard + 1)
            + rules.len(),
{
    broadcast use vstd::seq_lib::seq_to_set_is_finite;

    let n = rules.len() as int;
    let mapped = rules.map_values(|p: (Seq<char>, Seq<SymModel>)| p.0);
    assert forall|nm: Seq<char>| lhs_set(rules).contains(nm) implies mapped.to_set().contains(
        nm,
    ) by {
        let k = choose|k: int| 0 <= k < rules.len() && rules[k].0 == nm;
        assert(mapped[k] == nm);
    }
    mapped.lemma_cardinality_of_set();
    lemma_len_subset(lhs_set(rules), mapped.to_set());
    assert(sym.key_seq().to_set() =~= sym.map().dom());
    sym.key_seq().unique_seq_to_set();
    lemma_len_subset(sym.key_seq().to_set(), lhs_set(rules));
    assert(sym.key_seq().len() <= n);
    lemma_sum_sizes_bound(pf, u);
    assert forall|k: int|
        0 <= k < sym.val_seq().len() implies (#[trigger] sym.val_seq()[k]).wf()
        && sym.val_seq()[k].set().subset_of(u) by {
        sym.lemma_val_at(k);
    }
    lemma_sum_sizes_bound(sym.val_seq(), u);
    assert(sum_sizes(pf) <= n * (ucard + 1)) by {
        assert(sum_sizes(pf) <= pf.len() * u.len());
        assert(pf.len() * (u.len() as int) <= n * (ucard + 1)) by (nonlinear_arith)
            requires
                u.len() <= ucard,
                pf.len() == n,
                n >= 0,
                u.len() >= 0;
    }
    assert(sym.total() <= n * (ucard + 1)) by {
        assert(sum_sizes(sym.val_seq()) <= sym.val_seq().len() * u.len());
        assert((sym.val_seq().len() as int) * (u.len() as int) <= n * (ucard + 1))
            by (nonlinear_arith)
            requires
                sym.val_seq().len() <= n,
                u.len() <= ucard,
                n >= 0,
                u.len() >= 0,
                sym.val_seq().len() >= 0;
    }
    assert(2 * (rules.len() as int) * (ucard + 1) == n * (ucard + 1) + n * (ucard + 1))
        by (nonlinear_arith)
        requires n == rules.len() as int;
}

/// Compute the FIRST tables of a grammar: one set per production, one per
/// nonterminal, iterated to a fixed point.  The iteration terminates
/// because the sets only grow within the grammar's literal universe.
fn get_first_table(g: &GrammarChomsky) -> (r: (Vec<LitSet>, SetMap))
    ensures
        first_tables_ok(g@.rules, sets_view(r.0@), r.1.map()),
        forall|k: int| 0 <= k < r.0@.len() ==> (#[trigger] r.0@[k]).wf(),
        r.1.wf(),
        forall|n: Seq<char>| #[trigger]
            r.1.map().dom().contains(n) ==> r.1.map()[n].subset_of(lit_universe(g@.rules)),
        lit_universe(g@.rules).finite(),
        forall|m2: Map<Seq<char>, Set<Seq<char>>>|
            #[trigger] first_point_closed(g@.rules, m2) ==> forall|n: Seq<char>| #[trigger]
                r.1.map().dom().contains(n) ==> r.1.map()[n].subset_of(m2[n]),
{
    let tv = g.terminals();
    proof {
        terms_view(tv@).unique_seq_to_set();
        vstd::set_lib::lemma_len_subset(term_lit_set(g@.rules), terms_view(tv@).to_set());
    }
    let ghost u = lit_universe(g@.rules);
    let ghost ucard = u.len() as int;
    proof {
        assert(u.finite());
    }
    let n = g.rules.len();
    let mut pf: Vec<LitSet> = Vec::new();
    let mut i: usize = 0;
    while i < n
        invariant
            i <= n,
            pf@.len() == i,
            forall|k: int|
                0 <= k < pf@.len() ==> (#[trigger] pf@[k]).wf() && pf@[k].set()
                    == Set::<Seq<char>>::empty() && pf@[k].lits().len() == 0,
        decreases n - i,
    {
        pf.push(LitSet::new());
        i += 1;
    }
    let mut sym = SetMap::new();
    let ghost bound = 2 * (n as int) * (ucard + 1) + n as int;
    proof {
        lemma_sum_sizes_zero(pf@);
    }
    loop
        invariant
            u == lit_universe(g@.rules),
            u.finite(),
            ucard == u.len() as int,
            bound == 2 * (n as int) * (ucard + 1) + n as int,
            n == g@.rules.len(),
            pf@.len() == n,
            forall|k: int| 0 <= k < pf@.len() ==> (#[trigger] pf@[k]).wf(),
            sym.wf(),
            sym.map().dom().subset_of(lhs_set(g@.rules)),
            forall|k: int|
                0 <= k < pf@.len() ==> (#[trigger] pf@[k].set()).subset_of(
                    rhs_first_from(g@.rules[k].1, 0, sym.map()),
                ),
            forall|nm: Seq<char>, x: Seq<char>|
                sym.map().dom().contains(nm) && #[trigger] sym.map()[nm].contains(x) ==> exists|
                    k: int,
                |
                    0 <= k < pf@.len() && g@.rules[k].0 == nm && (#[trigger] pf@[k].set()).contains(
                        x,
                    ),
            forall|k: int|
                0 <= k < pf@.len() ==> (#[trigger] pf@[k].set()).subset_of(u),
            forall|nm: Seq<char>| #[trigger]
                sym.map().dom().contains(nm) ==> sym.map()[nm].subset_of(u),
            forall|m2: Map<Seq<char>, Set<Seq<char>>>|
                #[trigger] first_point_closed(g@.rules, m2) ==> {
                    &&& forall|nm: Seq<char>| #[trigger]
                        sym.map().dom().contains(nm) ==> sym.map()[nm].subset_of(m2[nm])
                    &&& forall|k: int|
                        0 <= k < pf@.len() ==> (#[trigger] pf@[k].set()).subset_of(
                            rhs_first_from(g@.rules[k].1, 0, m2),
                        )
                },
        decreases bound - (sum_sizes(pf@) + sym.total() + sym.key_seq().len()),
    {
        let ghost m_old = sym.map();
        let ghost pf_old = pf@;
        let ghost pot_old = sum_sizes(pf@) + sym.total() + sym.key_seq().len();
        proof {
            lemma_pot_bounded(g@.rules, pf@, sym, u, ucard);
        }
        let changed = first_pass(g, &mut pf, &mut sym);
        proof {
            assert(sym.map().dom() =~= lhs_set(g@.rules));
            assert forall|k: int| 0 <= k < pf@.len() implies (#[trigger] pf@[k].set()).subset_of(
                rhs_first_from(g@.rules[k].1, 0, sym.map()),
            ) by {
                lemma_rhs_first_mono(g@.rules[k].1, 0, m_old, sym.map());
                assert(pf_old[k].set().subset_of(rhs_first_from(g@.rules[k].1, 0, m_old)));
            }
            assert forall|nm: Seq<char>, x: Seq<char>|
                sym.map().dom().contains(nm) && #[trigger] sym.map()[nm].contains(
                    x,
                ) implies exists|k: int|
                0 <= k < pf@.len() && g@.rules[k].0 == nm && (#[trigger] pf@[k].set()).contains(
                    x,
                ) by {
                if m_old.dom().contains(nm) && m_old[nm].contains(x) {
                    let k = choose|k: int|
                        0 <= k < pf_old.len() && g@.rules[k].0 == nm && (
                        #[trigger] pf_old[k].set()).contains(x);
                    assert(pf@[k].set().contains(x));
                }
            }
        }
        proof {
            lemma_pot_bounded(g@.rules, pf@, sym, u, ucard);
        }
        if !changed {
            proof {
                assert forall|k: int|
                    0 <= k < pf@.len() implies #[trigger] sets_view(pf@)[k] == rhs_first_from(
                    g@.rules[k].1,
                    0,
                    sym.map(),
                ) by {
                    assert(sets_view(pf@)[k] == pf@[k].set());
                    assert(rhs_first_from(g@.rules[k].1, 0, sym.map()).subset_of(pf@[k].set()));
                    assert(pf@[k].set().subset_of(rhs_first_from(g@.rules[k].1, 0, sym.map())));
                    assert(pf@[k].set() =~= rhs_first_from(g@.rules[k].1, 0, sym.map()));
                }
                assert forall|k: int| 0 <= k < g@.rules.len() implies (#[trigger] sets_view(
                    pf@,
                )[k]).subset_of(sym.map()[g@.rules[k].0]) by {
                    assert(sets_view(pf@)[k] == pf@[k].set());
                }
                assert forall|nm: Seq<char>, x: Seq<char>|
                    sym.map().dom().contains(nm) && #[trigger] sym.map()[nm].contains(
                        x,
                    ) implies exists|k: int|
                    0 <= k < g@.rules.len() && g@.rules[k].0 == nm && (#[trigger] sets_view(
                        pf@,
                    )[k]).contains(x) by {
                    let k = choose|k: int|
                        0 <= k < pf@.len() && g@.rules[k].0 == nm && (
                        #[trigger] pf@[k].set()).contains(x);
                    assert(sets_view(pf@)[k].contains(x));
                }
            }
            return (pf, sym);
        }
    }
}

/// FIRST of one symbol, as a fresh set.
fn first(input: &NT, first_table: &SetMap) -> (r: LitSet)
    requires
        first_table.wf(),
    ensures
        r.wf(),
        r.set() == sym_first1(input@, first_table.map()),
{
    match input {
        NT::Term(f) => {
            let mut s = LitSet::new();
            s.insert_lit(f);
            proof {
                assert(s.set() =~= set![f@]);
            }
            s
        },
        NT::Epsilon => {
            let mut s = LitSet::new();
            let e = String::new();
            s.insert_lit(&e);
            proof {
                assert(s.set() =~= set![eps()]);
            }
            s
        },
        NT::Non(n) => {
            match first_table.get(n) {
                Some(f) => f.duplicate(),
                None => LitSet::new(),
            }
        },
    }
}

/// The nonterminal names in the nullable tail standing before position
/// `j` of a right-hand side: the names whose FOLLOW sees that position.
pub open spec fn tailset(
    rhs: Seq<SymModel>,
    j: int,
    m: Map<Seq<char>, Set<Seq<char>>>,
) -> Set<Seq<char>>
    decreases j,
{
    if j <= 0 {
        Set::empty()
    } else {
        let s = rhs[j - 1];
        let names = match s {
            SymModel::Non(n) => set![n],
            _ => Set::<Seq<char>>::empty(),
        };
        if sym_nullable(s, m) {
            tailset(rhs, j - 1, m).union(names)
        } else {
            names
        }
    }
}

/// The set bound to `n`, or empty where `n` is unbound.
pub open spec fn follow_at(fm: Map<Seq<char>, Set<Seq<char>>>, n: Seq<char>) -> Set<Seq<char>> {
    if fm.dom().contains(n) {
        fm[n]
    } else {
        Set::empty()
    }
}

/// The FOLLOW closure conditions for one production.
pub open spec fn follow_prod_closed(
    lhs: Seq<char>,
    rhs: Seq<SymModel>,
    m: Map<Seq<char>, Set<Seq<char>>>,
    fm: Map<Seq<char>, Set<Seq<char>>>,
) -> bool {
    &&& forall|j: int, nm: Seq<char>, x: Seq<char>|
        0 <= j < rhs.len() && #[trigger] tailset(rhs, j, m).contains(nm) && #[trigger] sym_first1(
            rhs[j],
            m,
        ).contains(x) && x != eps() ==> follow_at(fm, nm).contains(x)
    &&& forall|nm: Seq<char>, x: Seq<char>|
        #[trigger] tailset(rhs, rhs.len() as int, m).contains(nm) && follow_at(fm, lhs).contains(
            x,
        ) ==> #[trigger] follow_at(fm, nm).contains(x)
}

/// The FOLLOW closure conditions for a whole grammar.
pub open spec fn follow_closed(
    rules: Seq<(Seq<char>, Seq<SymModel>)>,
    m: Map<Seq<char>, Set<Seq<char>>>,
    fm: Map<Seq<char>, Set<Seq<char>>>,
) -> bool {
    forall|i: int|
        0 <= i < rules.len() ==> follow_prod_closed(
            (#[trigger] rules[i]).0,
            rules[i].1,
            m,
            fm,
        )
}

/// Every member of a FOLLOW table is accounted for: the seed, a FIRST
/// contribution at some position, or an end-of-rule flow from a left-hand
/// side.
pub open spec fn follow_justified(
    rules: Seq<(Seq<char>, Seq<SymModel>)>,
    start: Seq<char>,
    m: Map<Seq<char>, Set<Seq<char>>>,
    fm: Map<Seq<char>, Set<Seq<char>>>,
) -> bool {
    forall|nm: Seq<char>, x: Seq<char>|
        fm.dom().contains(nm) && #[trigger] fm[nm].contains(x) ==> {
            ||| (nm == start && x == eps())
            ||| exists|i: int, j: int|
                0 <= i < rules.len() && 0 <= j < rules[i].1.len() && #[trigger] tailset(
                    rules[i].1,
                    j,
                    m,
                ).contains(nm) && sym_first1(rules[i].1[j], m).contains(x) && x != eps()
            ||| exists|i: int|
                0 <= i < rules.len() && #[trigger] tailset(
                    rules[i].1,
                    rules[i].1.len() as int,
                    m,
                ).contains(nm) && follow_at(fm, rules[i].0).contains(x)
        }
}

/// The nonterminal names in a right-hand side, in order.
pub open spec fn non_names_of(rhs: Seq<SymModel>) -> Seq<Seq<char>>
    decreases rhs.len(),
{
    if rhs.len() == 0 {
        Seq::empty()
    } else {
        (match rhs.first() {
            SymModel::Non(n) => seq![n],
            _ => Seq::<Seq<char>>::empty(),
        }).add(non_names_of(rhs.drop_first()))
    }
}

/// All nonterminal names referenced in right-hand sides, as one sequence.
pub open spec fn all_rhs_non(rules: Seq<(Seq<char>, Seq<SymModel>)>) -> Seq<Seq<char>>
    decreases rules.len(),
{
    if rules.len() == 0 {
        Seq::empty()
    } else {
        non_names_of(rules.first().1).add(all_rhs_non(rules.drop_first()))
    }
}

pub proof fn lemma_non_names_of(rhs: Seq<SymModel>, j: int, n: Seq<char>)
    requires
        0 <= j < rhs.len(),
        rhs[j] == SymModel::Non(n),
    ensures
        non_names_of(rhs).contains(n),
    decreases j,
{
    if j == 0 {
        assert(rhs.first() == rhs[0]);
        assert(non_names_of(rhs)[0] == n);
    } else {
        lemma_non_names_of(rhs.drop_first(), j - 1, n);
        let k = choose|k: int|
            0 <= k < non_names_of(rhs.drop_first()).len() && non_names_of(rhs.drop_first())[k]
                == n;
        let off = non_names_of(rhs).len() - non_names_of(rhs.drop_first()).len();
        assert(non_names_of(rhs)[off + k] == n);
    }
}

/// Every referenced nonterminal name is in the collected sequence.
pub proof fn lemma_rhs_non_covered(rules: Seq<(Seq<char>, Seq<SymModel>)>, n: Seq<char>)
    requires
        rhs_non_set(rules).contains(n),
    ensures
        all_rhs_non(rules).to_set().contains(n),
    decreases rules.len(),
{
    let (i, j) = choose|i: int, j: int|
        0 <= i < rules.len() && 0 <= j < rules[i].1.len() && rules[i].1[j] == SymModel::Non(n);
    lemma_rhs_non_covered_at(rules, i, j, n);
}

pub proof fn lemma_rhs_non_covered_at(
    rules: Seq<(Seq<char>, Seq<SymModel>)>,
    i: int,
    j: int,
    n: Seq<char>,
)
    requires
        0 <= i < rules.len(),
        0 <= j < rules[i].1.len(),
        rules[i].1[j] == SymModel::Non(n),
    ensures
        all_rhs_non(rules).to_set().contains(n),
    decreases i,
{
    if i == 0 {
        assert(rules.first() == rules[0]);
        lemma_non_names_of(rules[0].1, j, n);
        let k = choose|k: int|
            0 <= k < non_names_of(rules[0].1).len() && non_names_of(rules[0].1)[k] == n;
        assert(all_rhs_non(rules)[k] == n);
        assert(all_rhs_non(rules).contains(n));
    } else {
        assert(rules.drop_first()[i - 1] == rules[i]);
        lemma_rhs_non_covered_at(rules.drop_first(), i - 1, j, n);
        let k = choose|k: int|
            0 <= k < all_rhs_non(rules.drop_first()).len() && all_rhs_non(rules.drop_first())[k]
                == n;
        let off = all_rhs_non(rules).len() - all_rhs_non(rules.drop_first()).len();
        assert(all_rhs_non(rules)[off + k] == n);
        assert(all_rhs_non(rules).contains(n));
    }
}

/// The nullable tail holds only names referenced in the right-hand side.
pub proof fn lemma_tailset_refs(
    rhs: Seq<SymModel>,
    j: int,
    m: Map<Seq<char>, Set<Seq<char>>>,
    nm: Seq<char>,
)
    requires
        0 <= j <= rhs.len(),
        tailset(rhs, j, m).contains(nm),
    ensures
        exists|j2: int| 0 <= j2 < j && rhs[j2] == SymModel::Non(nm),
    decreases j,
{
    if j > 0 {
        let s = rhs[j - 1];
        if s matches SymModel::Non(n2) && n2 == nm {
            assert(rhs[j - 1] == SymModel::Non(nm));
        } else {
            lemma_tailset_refs(rhs, j - 1, m, nm);
        }
    }
}

/// A FOLLOW table closed under spec rules and holding the end-of-input
/// seed; the computed table is below every such candidate.
pub open spec fn follow_candidate(
    rules: Seq<(Seq<char>, Seq<SymModel>)>,
    start: Seq<char>,
    m: Map<Seq<char>, Set<Seq<char>>>,
    f: Map<Seq<char>, Set<Seq<char>>>,
) -> bool {
    &&& follow_closed(rules, m, f)
    &&& f.dom().contains(start)
    &&& f[start].contains(eps())
}

/// One FOLLOW pass over one production: adds the FIRST of each position
/// to the FOLLOW of every name in the nullable tail before it, and the
/// left-hand side's FOLLOW to every name in the rightmost nullable tail.
fn follow_prod_pass(
    g: &GrammarChomsky,
    i: usize,
    sym: &SetMap,
    fm: &mut SetMap,
    Ghost(start): Ghost<Seq<char>>,
) -> (changed: bool)
    requires
        i < g@.rules.len(),
        sym.wf(),
        old(fm).wf(),
        follow_justified(g@.rules, start, sym.map(), old(fm).map()),
        forall|n: Seq<char>| #[trigger]
            sym.map().dom().contains(n) ==> sym.map()[n].subset_of(lit_universe(g@.rules)),
        forall|n: Seq<char>| #[trigger]
            old(fm).map().dom().contains(n) ==> old(fm).map()[n].subset_of(
                lit_universe(g@.rules),
            ),
        forall|f: Map<Seq<char>, Set<Seq<char>>>|
            #[trigger] follow_candidate(g@.rules, start, sym.map(), f) ==> forall|n: Seq<char>|
                #[trigger] old(fm).map().dom().contains(n) ==> old(fm).map()[n].subset_of(
                    follow_at(f, n),
                ),
    ensures
        final(fm).wf(),
        map_le(old(fm).map(), final(fm).map()),
        follow_justified(g@.rules, start, sym.map(), final(fm).map()),
        forall|n: Seq<char>| #[trigger]
            final(fm).map().dom().contains(n) ==> final(fm).map()[n].subset_of(
                lit_universe(g@.rules),
            ),
        final(fm).map().dom().subset_of(
            old(fm).map().dom().union(rhs_non_set(g@.rules)),
        ),
        final(fm).total() + final(fm).key_seq().len() >= old(fm).total() + old(
            fm,
        ).key_seq().len(),
        forall|f: Map<Seq<char>, Set<Seq<char>>>|
            #[trigger] follow_candidate(g@.rules, start, sym.map(), f) ==> forall|n: Seq<char>|
                #[trigger] final(fm).map().dom().contains(n) ==> final(fm).map()[n].subset_of(
                    follow_at(f, n),
                ),
        changed ==> final(fm).total() + final(fm).key_seq().len() > old(fm).total() + old(
            fm,
        ).key_seq().len(),
        !changed ==> final(fm).map() == old(fm).map() && follow_prod_closed(
            g@.rules[i as int].0,
            g@.rules[i as int].1,
            sym.map(),
            final(fm).map(),
        ),
{
    let ghost u = lit_universe(g@.rules);
    let ghost fm0dom = old(fm).map().dom();
    let ghost pot0 = old(fm).total() + old(fm).key_seq().len();
    let ghost rules = g@.rules;
    let ghost m = sym.map();
    let ghost rhs = rules[i as int].1;
    let ghost lhs = rules[i as int].0;
    let rhs_len = g.rules[i].1.len();
    let mut tail = LitSet::new();
    let mut changed = false;
    let mut j: usize = 0;
    proof {
        assert(tail.set() =~= tailset(rhs, 0, m));
    }
    while j < rhs_len
        invariant
            i < g@.rules.len(),
            rules == g@.rules,
            m == sym.map(),
            rhs == rules[i as int].1,
            lhs == rules[i as int].0,
            sym.wf(),
            fm.wf(),
            rhs_len == rhs.len(),
            j <= rhs_len,
            tail.wf(),
            tail.set() == tailset(rhs, j as int, m),
            map_le(old(fm).map(), fm.map()),
            follow_justified(rules, start, m, fm.map()),
            u == lit_universe(rules),
            forall|n2: Seq<char>| #[trigger]
                sym.map().dom().contains(n2) ==> sym.map()[n2].subset_of(u),
            forall|n2: Seq<char>| #[trigger]
                fm.map().dom().contains(n2) ==> fm.map()[n2].subset_of(u),
            forall|f: Map<Seq<char>, Set<Seq<char>>>|
                #[trigger] follow_candidate(rules, start, m, f) ==> forall|n2: Seq<char>|
                    #[trigger] fm.map().dom().contains(n2) ==> fm.map()[n2].subset_of(
                        follow_at(f, n2),
                    ),
            fm.map().dom().subset_of(fm0dom.union(rhs_non_set(rules))),
            fm.total() + fm.key_seq().len() >= pot0,
            changed ==> fm.total() + fm.key_seq().len() > pot0,
            !changed ==> {
                &&& fm.map() == old(fm).map()
                &&& forall|j2: int, nm: Seq<char>, x: Seq<char>|
                    0 <= j2 < j && #[trigger] tailset(rhs, j2, m).contains(nm)
                        && #[trigger] sym_first1(rhs[j2], m).contains(x) && x != eps()
                        ==> follow_at(fm.map(), nm).contains(x)
            },
        decreases rhs_len - j,
    {
        let fs = first(&g.rules[i].1[j], sym);
        proof {
            assert(g.rules@[i as int].1@[j as int]@ == rhs[j as int]);
            assert(fs.set() == sym_first1(rhs[j as int], m));
            assert(fs.set().subset_of(u)) by {
                match rhs[j as int] {
                    SymModel::Term(t) => {
                        assert(rules[i as int].1[j as int] == SymModel::Term(t));
                        assert(term_lit_set(rules).contains(t));
                        assert(u.contains(t));
                        assert forall|x: Seq<char>| fs.set().contains(x) implies u.contains(
                            x,
                        ) by {
                            assert(x == t);
                        }
                    },
                    SymModel::Eps => {
                        assert(u.contains(eps()));
                        assert forall|x: Seq<char>| fs.set().contains(x) implies u.contains(
                            x,
                        ) by {
                            assert(x == eps());
                        }
                    },
                    SymModel::Non(n2) => {
                        if m.dom().contains(n2) {
                            assert(sym.map().dom().contains(n2));
                            assert(sym.map()[n2].subset_of(lit_universe(g@.rules)));
                        }
                    },
                }
            }
        }
        // add FIRST (without epsilon) to the FOLLOW of each tail name
        let tn = tail.len();
        let mut a: usize = 0;
        while a < tn
            invariant
                i < g@.rules.len(),
                rules == g@.rules,
                m == sym.map(),
                rhs == rules[i as int].1,
                lhs == rules[i as int].0,
                sym.wf(),
                fm.wf(),
                rhs_len == rhs.len(),
                j < rhs_len,
                tail.wf(),
                tail.set() == tailset(rhs, j as int, m),
                tn == tail.lits().len(),
                a <= tn,
                fs.set() == sym_first1(rhs[j as int], m),
                fs.set().subset_of(u),
                map_le(old(fm).map(), fm.map()),
                follow_justified(rules, start, m, fm.map()),
                u == lit_universe(rules),
                forall|n2: Seq<char>| #[trigger]
                    sym.map().dom().contains(n2) ==> sym.map()[n2].subset_of(u),
                forall|n2: Seq<char>| #[trigger]
                    fm.map().dom().contains(n2) ==> fm.map()[n2].subset_of(u),
                forall|f: Map<Seq<char>, Set<Seq<char>>>|
                    #[trigger] follow_candidate(rules, start, m, f) ==> forall|n2: Seq<char>|
                        #[trigger] fm.map().dom().contains(n2) ==> fm.map()[n2].subset_of(
                            follow_at(f, n2),
                        ),
                fm.map().dom().subset_of(fm0dom.union(rhs_non_set(rules))),
                fm.total() + fm.key_seq().len() >= pot0,
                changed ==> fm.total() + fm.key_seq().len() > pot0,
                !changed ==> {
                    &&& fm.map() == old(fm).map()
                    &&& forall|j2: int, nm: Seq<char>, x: Seq<char>|
                        0 <= j2 < j && #[trigger] tailset(rhs, j2, m).contains(nm)
                            && #[trigger] sym_first1(rhs[j2], m).contains(x) && x != eps()
                            ==> follow_at(fm.map(), nm).contains(x)
                    &&& forall|b: int, x: Seq<char>|
                        0 <= b < a && #[trigger] sym_first1(rhs[j as int], m).contains(x) && x
                            != eps() ==> follow_at(fm.map(), #[trigger] tail.lits()[b]).contains(
                            x,
                        )
                },
            decreases tn - a,
        {
            let nm = tail.index(a).clone();
            proof {
                assert(tail.set().contains(nm@));
            }
            let fn_ = fs.len();
            let mut b: usize = 0;
            while b < fn_
                invariant
                    i < g@.rules.len(),
                    rules == g@.rules,
                    m == sym.map(),
                    rhs == rules[i as int].1,
                    lhs == rules[i as int].0,
                    sym.wf(),
                    fm.wf(),
                    rhs_len == rhs.len(),
                    j < rhs_len,
                    fn_ == fs.lits().len(),
                    b <= fn_,
                    fs.set() == sym_first1(rhs[j as int], m),
                    fs.set().subset_of(u),
                    tailset(rhs, j as int, m).contains(nm@),
                    map_le(old(fm).map(), fm.map()),
                    follow_justified(rules, start, m, fm.map()),
                    u == lit_universe(rules),
                    forall|n2: Seq<char>| #[trigger]
                        sym.map().dom().contains(n2) ==> sym.map()[n2].subset_of(u),
                    forall|n2: Seq<char>| #[trigger]
                        fm.map().dom().contains(n2) ==> fm.map()[n2].subset_of(u),
                    forall|f: Map<Seq<char>, Set<Seq<char>>>|
                        #[trigger] follow_candidate(rules, start, m, f) ==> forall|n2: Seq<char>|
                            #[trigger] fm.map().dom().contains(n2) ==> fm.map()[n2].subset_of(
                                follow_at(f, n2),
                            ),
                    fm.map().dom().subset_of(fm0dom.union(rhs_non_set(rules))),
                    fm.total() + fm.key_seq().len() >= pot0,
                    changed ==> fm.total() + fm.key_seq().len() > pot0,
                    !changed ==> {
                        &&& fm.map() == old(fm).map()
                        &&& forall|j2: int, nm2: Seq<char>, x: Seq<char>|
                            0 <= j2 < j && #[trigger] tailset(rhs, j2, m).contains(nm2)
                                && #[trigger] sym_first1(rhs[j2], m).contains(x) && x != eps()
                                ==> follow_at(fm.map(), nm2).contains(x)
                        &&& forall|b2: int, x: Seq<char>|
                            0 <= b2 < a && #[trigger] sym_first1(rhs[j as int], m).contains(x)
                                && x != eps() ==> follow_at(
                                fm.map(),
                                #[trigger] tail.lits()[b2],
                            ).contains(x)
                        &&& forall|c: int|
                            0 <= c < b && fs.lits()[c] != eps() ==> follow_at(
                                fm.map(),
                                nm@,
                            ).contains(#[trigger] fs.lits()[c])
                    },
                decreases fn_ - b,
            {
                let x = fs.index(b);
                proof {
                    if x@.len() == 0 {
                        assert(x@ =~= eps());
                    }
                }
                if !x.as_str().is_empty() {
                    let ghost fm_pre = fm.map();
                    let ghost pot_pre = fm.total() + fm.key_seq().len();
                    let x2 = x.clone();
                    let ad = fm.insert_into(&nm, &x2);
                    proof {
                        assert(fs.set().contains(x2@));
                        assert(x2@ != eps());
                        assert(map_le(fm_pre, fm.map()));
                        // the new member is in the universe
                        assert forall|n2: Seq<char>| #[trigger]
                            fm.map().dom().contains(n2) implies fm.map()[n2].subset_of(u) by {
                            if n2 == nm@ {
                                assert(x2@ == fs.lits()[b as int]);
                                assert(u.contains(x2@));
                            } else {
                                assert(fm_pre.dom().contains(n2));
                                assert(fm.map()[n2] == fm_pre[n2]);
                            }
                        }
                        // the new member is forced in every closed candidate
                        assert forall|f: Map<Seq<char>, Set<Seq<char>>>|
                            #[trigger] follow_candidate(rules, start, m, f) implies forall|
                            n2: Seq<char>,
                        |
                            #[trigger] fm.map().dom().contains(n2) ==> fm.map()[n2].subset_of(
                                follow_at(f, n2),
                            ) by {
                            assert(follow_prod_closed(rules[i as int].0, rules[i as int].1, m, f));
                            assert forall|n2: Seq<char>| #[trigger]
                                fm.map().dom().contains(n2) implies fm.map()[n2].subset_of(
                                follow_at(f, n2),
                            ) by {
                                if n2 == nm@ {
                                    assert(tailset(rules[i as int].1, j as int, m).contains(nm@));
                                    assert(sym_first1(rules[i as int].1[j as int], m).contains(
                                        x2@,
                                    ));
                                    assert(follow_at(f, nm@).contains(x2@));
                                    if fm_pre.dom().contains(n2) {
                                        assert(fm_pre[n2].subset_of(follow_at(f, n2)));
                                    }
                                } else {
                                    assert(fm_pre.dom().contains(n2));
                                    assert(fm.map()[n2] == fm_pre[n2]);
                                }
                            }
                        }
                        // the key is a referenced nonterminal
                        lemma_tailset_refs(rhs, j as int, m, nm@);
                        let j2 = choose|j2: int|
                            0 <= j2 < j && rhs[j2] == SymModel::Non(nm@);
                        assert(rules[i as int].1[j2] == SymModel::Non(nm@));
                        assert(rhs_non_set(rules).contains(nm@));
                        assert(fm.map().dom().subset_of(fm0dom.union(rhs_non_set(rules))));
                        assert(follow_justified(rules, start, m, fm.map())) by {
                            assert forall|nm2: Seq<char>, y: Seq<char>|
                                fm.map().dom().contains(nm2) && #[trigger] fm.map()[nm2].contains(
                                    y,
                                ) implies {
                                ||| (nm2 == start && y == eps())
                                ||| exists|i2: int, j2: int|
                                    0 <= i2 < rules.len() && 0 <= j2 < rules[i2].1.len()
                                        && #[trigger] tailset(rules[i2].1, j2, m).contains(nm2)
                                        && sym_first1(rules[i2].1[j2], m).contains(y) && y != eps()
                                ||| exists|i2: int|
                                    0 <= i2 < rules.len() && #[trigger] tailset(
                                        rules[i2].1,
                                        rules[i2].1.len() as int,
                                        m,
                                    ).contains(nm2) && follow_at(fm.map(), rules[i2].0).contains(y)
                            } by {
                                if nm2 == nm@ && y == x2@ && !(fm_pre.dom().contains(nm2)
                                    && fm_pre[nm2].contains(y)) {
                                    assert(tailset(rules[i as int].1, j as int, m).contains(nm2));
                                    assert(sym_first1(rules[i as int].1[j as int], m).contains(y));
                                } else {
                                    assert(fm_pre.dom().contains(nm2) && fm_pre[nm2].contains(y));
                                    assert({
                                        ||| (nm2 == start && y == eps())
                                        ||| exists|i2: int, j2: int|
                                            0 <= i2 < rules.len() && 0 <= j2 < rules[i2].1.len()
                                                && #[trigger] tailset(rules[i2].1, j2, m).contains(
                                                nm2,
                                            ) && sym_first1(rules[i2].1[j2], m).contains(y) && y
                                                != eps()
                                        ||| exists|i2: int|
                                            0 <= i2 < rules.len() && #[trigger] tailset(
                                                rules[i2].1,
                                                rules[i2].1.len() as int,
                                                m,
                                            ).contains(nm2) && follow_at(
                                                fm_pre,
                                                rules[i2].0,
                                            ).contains(y)
                                    });
                                }
                            }
                        }
                        if !ad {
                            assert(fm_pre.dom().contains(nm@));
                            assert(fm_pre[nm@].insert(x2@) =~= fm_pre[nm@]);
                            assert(fm.map() =~= fm_pre);
                        }
                    }
                    changed = changed || ad;
                }
                b += 1;
            }
            proof {
                if !changed {
                    assert forall|x: Seq<char>|
                        #[trigger] sym_first1(rhs[j as int], m).contains(x) && x
                            != eps() implies follow_at(fm.map(), nm@).contains(x) by {
                        let c = choose|c: int|
                            0 <= c < fs.lits().len() && fs.lits()[c] == x;
                        assert(follow_at(fm.map(), nm@).contains(fs.lits()[c]));
                    }
                    assert(fm.map() == old(fm).map());
                    assert(forall|j2: int, nm2: Seq<char>, x: Seq<char>|
                        0 <= j2 < j && #[trigger] tailset(rhs, j2, m).contains(nm2)
                            && #[trigger] sym_first1(rhs[j2], m).contains(x) && x != eps()
                            ==> follow_at(fm.map(), nm2).contains(x));
                    assert forall|b2: int, x: Seq<char>|
                        0 <= b2 < a + 1 && #[trigger] sym_first1(rhs[j as int], m).contains(x)
                            && x != eps() implies follow_at(
                        fm.map(),
                        #[trigger] tail.lits()[b2],
                    ).contains(x) by {
                        if b2 == a {
                            assert(tail.lits()[b2] == nm@);
                            assert(follow_at(fm.map(), nm@).contains(x));
                        }
                    }
                }
            }
            a += 1;
        }
        let ghost pos_done = j as int;
        proof {
            if !changed {
                assert forall|nm: Seq<char>, x: Seq<char>|
                    #[trigger] tailset(rhs, pos_done, m).contains(nm) && #[trigger] sym_first1(
                        rhs[pos_done],
                        m,
                    ).contains(x) && x != eps() implies follow_at(fm.map(), nm).contains(x) by {
                    let c = choose|c: int|
                        0 <= c < tail.lits().len() && tail.lits()[c] == nm;
                    assert(follow_at(fm.map(), tail.lits()[c]).contains(x));
                }
            }
        }
        // update the tail
        let e = String::new();
        let nullable = fs.contains_lit(&e);
        match &g.rules[i].1[j] {
            NT::Non(nmj) => {
                if nullable {
                    tail.insert_lit(nmj);
                    proof {
                        assert(tail.set() =~= tailset(rhs, j + 1, m));
                    }
                } else {
                    let mut nt = LitSet::new();
                    nt.insert_lit(nmj);
                    tail = nt;
                    proof {
                        assert(tail.set() =~= tailset(rhs, j + 1, m));
                    }
                }
            },
            _ => {
                if nullable {
                    proof {
                        assert(tailset(rhs, j + 1, m) =~= tailset(rhs, j as int, m));
                        assert(tail.set() =~= tailset(rhs, j + 1, m));
                    }
                } else {
                    tail = LitSet::new();
                    proof {
                        assert(tail.set() =~= tailset(rhs, j + 1, m));
                    }
                }
            },
        }
        proof {
            if !changed {
                assert forall|j2: int, nm: Seq<char>, x: Seq<char>|
                    0 <= j2 < pos_done + 1 && #[trigger] tailset(rhs, j2, m).contains(nm)
                        && #[trigger] sym_first1(rhs[j2], m).contains(x) && x
                        != eps() implies follow_at(fm.map(), nm).contains(x) by {
                    if j2 == pos_done {
                        assert(tailset(rhs, pos_done, m).contains(nm));
                        assert(sym_first1(rhs[pos_done], m).contains(x));
                    }
                }
            }
        }
        j += 1;
    }
    // flow the left-hand side's FOLLOW into the rightmost nullable tail
    let flhs = match fm.get(&g.rules[i].0) {
        Some(f) => f.duplicate(),
        None => LitSet::new(),
    };
    proof {
        assert(flhs.set() == follow_at(fm.map(), lhs));
        assert(flhs.wf());
        assert(flhs.set().subset_of(u));
    }
    let ghost fm_before_end = fm.map();
    let tn = if flhs.len() > 0 {
        tail.len()
    } else {
        0
    };
    proof {
        if flhs.lits().len() == 0 {
            assert(flhs.set() =~= Set::<Seq<char>>::empty());
        }
    }
    let mut a: usize = 0;
    while a < tn
        invariant
            i < g@.rules.len(),
            rules == g@.rules,
            m == sym.map(),
            rhs == rules[i as int].1,
            lhs == rules[i as int].0,
            sym.wf(),
            fm.wf(),
            rhs_len == rhs.len(),
            tail.wf(),
            tail.set() == tailset(rhs, rhs_len as int, m),
            tn <= tail.lits().len(),
            a <= tn,
            flhs.wf(),
            tn > 0 ==> flhs.lits().len() > 0,
            flhs.lits().len() > 0 ==> tn == tail.lits().len(),
            flhs.set() == follow_at(fm_before_end, lhs),
            flhs.set().subset_of(u),
            forall|f: Map<Seq<char>, Set<Seq<char>>>|
                #[trigger] follow_candidate(rules, start, m, f) ==> flhs.set().subset_of(
                    follow_at(f, lhs),
                ),
            map_le(old(fm).map(), fm.map()),
            map_le(fm_before_end, fm.map()),
            follow_justified(rules, start, m, fm.map()),
            u == lit_universe(rules),
            forall|n2: Seq<char>| #[trigger]
                sym.map().dom().contains(n2) ==> sym.map()[n2].subset_of(u),
            forall|n2: Seq<char>| #[trigger]
                fm.map().dom().contains(n2) ==> fm.map()[n2].subset_of(u),
            forall|f: Map<Seq<char>, Set<Seq<char>>>|
                #[trigger] follow_candidate(rules, start, m, f) ==> forall|n2: Seq<char>|
                    #[trigger] fm.map().dom().contains(n2) ==> fm.map()[n2].subset_of(
                        follow_at(f, n2),
                    ),
            fm.map().dom().subset_of(fm0dom.union(rhs_non_set(rules))),
            fm.total() + fm.key_seq().len() >= pot0,
            changed ==> fm.total() + fm.key_seq().len() > pot0,
            !changed ==> {
                &&& fm.map() == old(fm).map()
                &&& fm.map() == fm_before_end
                &&& forall|j2: int, nm: Seq<char>, x: Seq<char>|
                    0 <= j2 < rhs.len() && #[trigger] tailset(rhs, j2, m).contains(nm)
                        && #[trigger] sym_first1(rhs[j2], m).contains(x) && x != eps()
                        ==> follow_at(fm.map(), nm).contains(x)
                &&& forall|b: int, x: Seq<char>|
                    0 <= b < a && #[trigger] flhs.set().contains(x) ==> follow_at(
                        fm.map(),
                        #[trigger] tail.lits()[b],
                    ).contains(x)
            },
        decreases tn - a,
    {
        let nm = tail.index(a).clone();
        proof {
            assert(tail.set().contains(nm@));
        }
        let ghost fm_pre = fm.map();
        let ghost pot_pre = fm.total() + fm.key_seq().len();
        let ad = fm.union_into(&nm, &flhs);
        proof {
            assert(map_le(fm_pre, fm.map()));
            assert forall|n2: Seq<char>| #[trigger]
                fm.map().dom().contains(n2) implies fm.map()[n2].subset_of(u) by {
                if n2 != nm@ {
                    assert(fm_pre.dom().contains(n2));
                    assert(fm.map()[n2] == fm_pre[n2]);
                }
            }
            assert forall|f: Map<Seq<char>, Set<Seq<char>>>|
                #[trigger] follow_candidate(rules, start, m, f) implies forall|n2: Seq<char>|
                #[trigger] fm.map().dom().contains(n2) ==> fm.map()[n2].subset_of(
                    follow_at(f, n2),
                ) by {
                assert(follow_prod_closed(rules[i as int].0, rules[i as int].1, m, f));
                assert forall|n2: Seq<char>| #[trigger]
                    fm.map().dom().contains(n2) implies fm.map()[n2].subset_of(
                    follow_at(f, n2),
                ) by {
                    if n2 == nm@ {
                        assert(tailset(rules[i as int].1, rules[i as int].1.len() as int,
                            m).contains(nm@));
                        assert(flhs.set().subset_of(follow_at(f, lhs)));
                        assert forall|y: Seq<char>| flhs.set().contains(y) implies follow_at(
                            f,
                            nm@,
                        ).contains(y) by {
                            assert(follow_at(f, lhs).contains(y));
                        }
                        if fm_pre.dom().contains(n2) {
                            assert(fm_pre[n2].subset_of(follow_at(f, n2)));
                        }
                    } else {
                        assert(fm_pre.dom().contains(n2));
                        assert(fm.map()[n2] == fm_pre[n2]);
                    }
                }
            }
            lemma_tailset_refs(rhs, rhs_len as int, m, nm@);
            let j2 = choose|j2: int|
                0 <= j2 < rhs_len && rhs[j2] == SymModel::Non(nm@);
            assert(rules[i as int].1[j2] == SymModel::Non(nm@));
            assert(rhs_non_set(rules).contains(nm@));
            assert(fm.map().dom().subset_of(fm0dom.union(rhs_non_set(rules))));
            assert(follow_justified(rules, start, m, fm.map())) by {
                assert forall|nm2: Seq<char>, y: Seq<char>|
                    fm.map().dom().contains(nm2) && #[trigger] fm.map()[nm2].contains(
                        y,
                    ) implies {
                    ||| (nm2 == start && y == eps())
                    ||| exists|i2: int, j2: int|
                        0 <= i2 < rules.len() && 0 <= j2 < rules[i2].1.len() && #[trigger] tailset(
                            rules[i2].1,
                            j2,
                            m,
                        ).contains(nm2) && sym_first1(rules[i2].1[j2], m).contains(y) && y != eps()
                    ||| exists|i2: int|
                        0 <= i2 < rules.len() && #[trigger] tailset(
                            rules[i2].1,
                            rules[i2].1.len() as int,
                            m,
                        ).contains(nm2) && follow_at(fm.map(), rules[i2].0).contains(y)
                } by {
                    if nm2 == nm@ && !(fm_pre.dom().contains(nm2) && fm_pre[nm2].contains(y))
                        && flhs.set().contains(y) {
                        assert(tailset(rules[i as int].1, rules[i as int].1.len() as int,
                            m).contains(nm2));
                        assert(follow_at(fm_before_end, lhs).contains(y));
                        assert(follow_at(fm.map(), lhs).contains(y)) by {
                            if fm_before_end.dom().contains(lhs) {
                                assert(fm_before_end[lhs].contains(y));
                                assert(fm.map()[lhs].contains(y));
                            }
                        }
                    } else {
                        assert(fm_pre.dom().contains(nm2) && fm_pre[nm2].contains(y));
                        assert({
                            ||| (nm2 == start && y == eps())
                            ||| exists|i2: int, j2: int|
                                0 <= i2 < rules.len() && 0 <= j2 < rules[i2].1.len()
                                    && #[trigger] tailset(rules[i2].1, j2, m).contains(nm2)
                                    && sym_first1(rules[i2].1[j2], m).contains(y) && y != eps()
                            ||| exists|i2: int|
                                0 <= i2 < rules.len() && #[trigger] tailset(
                                    rules[i2].1,
                                    rules[i2].1.len() as int,
                                    m,
                                ).contains(nm2) && follow_at(fm_pre, rules[i2].0).contains(y)
                        });
                    }
                }
            }
            if !ad {
                assert(flhs.lits().len() > 0);
                assert(flhs.set().contains(flhs.lits()[0]));
                assert(fm_pre.dom().contains(nm@));
                assert(fm_pre[nm@].union(flhs.set()) =~= fm_pre[nm@]);
                assert(fm.map() =~= fm_pre);
            }
        }
        changed = changed || ad;
        a += 1;
    }
    proof {
        if !changed {
            assert forall|nm: Seq<char>, x: Seq<char>|
                #[trigger] tailset(rhs, rhs.len() as int, m).contains(nm) && follow_at(
                    fm.map(),
                    lhs,
                ).contains(x) implies #[trigger] follow_at(fm.map(), nm).contains(x) by {
                assert(flhs.set().contains(x));
                let c0 = choose|c0: int| 0 <= c0 < flhs.lits().len() && flhs.lits()[c0] == x;
                assert(flhs.lits().len() > 0);
                assert(tn == tail.lits().len());
                let c = choose|c: int| 0 <= c < tail.lits().len() && tail.lits()[c] == nm;
                assert(follow_at(fm.map(), tail.lits()[c]).contains(x));
            }
        }
    }
    changed
}

/// The FOLLOW potential is bounded: all sets live inside the finite
/// literal universe, and entries exist only for referenced nonterminals
/// and the start symbol.
proof fn lemma_follow_pot_bounded(
    rules: Seq<(Seq<char>, Seq<SymModel>)>,
    fm: SetMap,
    u: Set<Seq<char>>,
    start: Seq<char>,
)
    requires
        u.finite(),
        fm.wf(),
        fm.map().dom().subset_of(rhs_non_set(rules).insert(start)),
        forall|n: Seq<char>| #[trigger]
            fm.map().dom().contains(n) ==> fm.map()[n].subset_of(u),
    ensures
        fm.total() + fm.key_seq().len() <= (all_rhs_non(rules).len() + 1) * (u.len() + 1) + (
        all_rhs_non(rules).len() + 1),
{
    broadcast use vstd::seq_lib::seq_to_set_is_finite;

    let s = all_rhs_non(rules).to_set().insert(start);
    assert forall|nm: Seq<char>| fm.map().dom().contains(nm) implies s.contains(nm) by {
        if nm != start {
            assert(rhs_non_set(rules).contains(nm));
            lemma_rhs_non_covered(rules, nm);
        }
    }
    all_rhs_non(rules).lemma_cardinality_of_set();
    assert(s.len() <= all_rhs_non(rules).len() + 1);
    assert(fm.key_seq().to_set() =~= fm.map().dom());
    fm.key_seq().unique_seq_to_set();
    lemma_len_subset(fm.key_seq().to_set(), s);
    let r1 = all_rhs_non(rules).len() + 1;
    assert(fm.key_seq().len() <= r1);
    assert forall|k: int|
        0 <= k < fm.val_seq().len() implies (#[trigger] fm.val_seq()[k]).wf()
        && fm.val_seq()[k].set().subset_of(u) by {
        fm.lemma_val_at(k);
    }
    lemma_sum_sizes_bound(fm.val_seq(), u);
    assert(fm.total() <= r1 * (u.len() + 1)) by {
        assert(sum_sizes(fm.val_seq()) <= fm.val_seq().len() * u.len());
        assert((fm.val_seq().len() as int) * (u.len() as int) <= r1 * (u.len() + 1))
            by (nonlinear_arith)
            requires
                fm.val_seq().len() <= r1,
                r1 >= 0,
                u.len() >= 0,
                fm.val_seq().len() >= 0;
    }
}

/// Compute the FOLLOW table of a grammar, iterated to a fixed point,
/// seeded with end-of-input in the start symbol's set.  The iteration
/// terminates because the sets only grow within the literal universe.
fn get_follow_table(g: &GrammarChomsky, sym: &SetMap) -> (fm: SetMap)
    requires
        sym.wf(),
        forall|n: Seq<char>| #[trigger]
            sym.map().dom().contains(n) ==> sym.map()[n].subset_of(lit_universe(g@.rules)),
        lit_universe(g@.rules).finite(),
    ensures
        fm.wf(),
        follow_closed(g@.rules, sym.map(), fm.map()),
        fm.map().dom().contains(g@.start),
        fm.map()[g@.start].contains(eps()),
        follow_justified(g@.rules, g@.start, sym.map(), fm.map()),
        forall|n: Seq<char>| #[trigger]
            fm.map().dom().contains(n) ==> fm.map()[n].subset_of(lit_universe(g@.rules)),
        forall|f: Map<Seq<char>, Set<Seq<char>>>|
            #[trigger] follow_candidate(g@.rules, g@.start, sym.map(), f) ==> forall|
                n: Seq<char>,
            |
                #[trigger] fm.map().dom().contains(n) ==> fm.map()[n].subset_of(
                    follow_at(f, n),
                ),
{
    let ghost start = g@.start;
    let ghost rules = g@.rules;
    let ghost m = sym.map();
    let ghost u = lit_universe(rules);
    let mut fm = SetMap::new();
    let e = String::new();
    fm.insert_into(&g.start_nonterm, &e);
    proof {
        assert(fm.map().dom().contains(start));
        assert(fm.map()[start].contains(eps()));
        assert(follow_justified(rules, start, m, fm.map()));
        assert(fm.map().dom() =~= Set::<Seq<char>>::empty().insert(start));
        assert forall|n2: Seq<char>| #[trigger]
            fm.map().dom().contains(n2) implies fm.map()[n2].subset_of(u) by {
            assert(n2 == start);
            assert(fm.map()[n2] =~= Set::<Seq<char>>::empty().insert(eps()));
        }
        assert forall|f: Map<Seq<char>, Set<Seq<char>>>|
            #[trigger] follow_candidate(rules, start, m, f) implies forall|n2: Seq<char>|
            #[trigger] fm.map().dom().contains(n2) ==> fm.map()[n2].subset_of(
                follow_at(f, n2),
            ) by {
            assert forall|n2: Seq<char>| #[trigger]
                fm.map().dom().contains(n2) implies fm.map()[n2].subset_of(
                follow_at(f, n2),
            ) by {
                assert(n2 == start);
                assert(fm.map()[n2] =~= Set::<Seq<char>>::empty().insert(eps()));
                assert(follow_at(f, start).contains(eps()));
            }
        }
    }
    let n = g.rules.len();
    let ghost fbound = (all_rhs_non(rules).len() + 1) * (u.len() + 1) + (all_rhs_non(
        rules,
    ).len() + 1);
    loop
        invariant
            start == g@.start,
            rules == g@.rules,
            m == sym.map(),
            u == lit_universe(rules),
            u.finite(),
            fbound == (all_rhs_non(rules).len() + 1) * (u.len() + 1) + (all_rhs_non(
                rules,
            ).len() + 1),
            sym.wf(),
            forall|n2: Seq<char>| #[trigger]
                sym.map().dom().contains(n2) ==> sym.map()[n2].subset_of(u),
            n == rules.len(),
            fm.wf(),
            fm.map().dom().contains(start),
            fm.map()[start].contains(eps()),
            follow_justified(rules, start, m, fm.map()),
            forall|n2: Seq<char>| #[trigger]
                fm.map().dom().contains(n2) ==> fm.map()[n2].subset_of(u),
            forall|f: Map<Seq<char>, Set<Seq<char>>>|
                #[trigger] follow_candidate(rules, start, m, f) ==> forall|n2: Seq<char>|
                    #[trigger] fm.map().dom().contains(n2) ==> fm.map()[n2].subset_of(
                        follow_at(f, n2),
                    ),
            fm.map().dom().subset_of(rhs_non_set(rules).insert(start)),
        decreases fbound - (fm.total() + fm.key_seq().len()),
    {
        let ghost fm_round = fm.map();
        let ghost pot_round = fm.total() + fm.key_seq().len();
        proof {
            lemma_follow_pot_bounded(rules, fm, u, start);
        }
        let mut changed = false;
        let mut i: usize = 0;
        while i < n
            invariant
                start == g@.start,
                rules == g@.rules,
                m == sym.map(),
                u == lit_universe(rules),
                sym.wf(),
                forall|n2: Seq<char>| #[trigger]
                    sym.map().dom().contains(n2) ==> sym.map()[n2].subset_of(u),
                n == rules.len(),
                i <= n,
                fm.wf(),
                map_le(fm_round, fm.map()),
                fm.map().dom().contains(start),
                fm.map()[start].contains(eps()),
                follow_justified(rules, start, m, fm.map()),
                forall|n2: Seq<char>| #[trigger]
                    fm.map().dom().contains(n2) ==> fm.map()[n2].subset_of(u),
                forall|f: Map<Seq<char>, Set<Seq<char>>>|
                    #[trigger] follow_candidate(rules, start, m, f) ==> forall|n2: Seq<char>|
                        #[trigger] fm.map().dom().contains(n2) ==> fm.map()[n2].subset_of(
                            follow_at(f, n2),
                        ),
                fm.map().dom().subset_of(rhs_non_set(rules).insert(start)),
                fm.total() + fm.key_seq().len() >= pot_round,
                changed ==> fm.total() + fm.key_seq().len() > pot_round,
                !changed ==> {
                    &&& fm.map() == fm_round
                    &&& forall|k: int|
                        0 <= k < i ==> follow_prod_closed(
                            (#[trigger] rules[k]).0,
                            rules[k].1,
                            m,
                            fm.map(),
                        )
                },
            decreases n - i,
        {
            let ghost fm_pre = fm.map();
            let ghost pot_pre = fm.total() + fm.key_seq().len();
            let c = follow_prod_pass(g, i, sym, &mut fm, Ghost(start));
            proof {
                assert(fm.map()[start].contains(eps())) by {
                    assert(fm_pre.dom().contains(start));
                    assert(fm_pre[start].subset_of(fm.map()[start]));
                }
                assert(fm.map().dom().subset_of(rhs_non_set(rules).insert(start)));
            }
            changed = changed || c;
            i += 1;
        }
        proof {
            lemma_follow_pot_bounded(rules, fm, u, start);
        }
        if !changed {
            proof {
                assert(follow_closed(rules, m, fm.map()));
            }
            return fm;
        }
    }
}

/// The lookaheads that production `i` claims in the parse table: its FIRST
/// set without epsilon, and, where it can yield epsilon, the FOLLOW of its
/// left-hand side.
pub open spec fn entry_lits(
    rules: Seq<(Seq<char>, Seq<SymModel>)>,
    pf: Seq<Set<Seq<char>>>,
    fm: Map<Seq<char>, Set<Seq<char>>>,
    i: int,
) -> Set<Seq<char>> {
    pf[i].remove(eps()).union(
        if pf[i].contains(eps()) {
            follow_at(fm, rules[i].0)
        } else {
            Set::empty()
        },
    )
}

/// The grammar is LL(1): productions of one nonterminal claim disjoint
/// lookaheads.
pub open spec fn ll1_ok(
    rules: Seq<(Seq<char>, Seq<SymModel>)>,
    pf: Seq<Set<Seq<char>>>,
    fm: Map<Seq<char>, Set<Seq<char>>>,
) -> bool {
    forall|i: int, j: int|
        0 <= i < j < rules.len() && (#[trigger] rules[i]).0 == (#[trigger] rules[j]).0
            ==> entry_lits(rules, pf, fm, i).disjoint(entry_lits(rules, pf, fm, j))
}

/// The LL(1) dispatch table: rows of (nonterminal, lookahead, production
/// index), at most one production per nonterminal and lookahead.
pub struct ParseTable {
    pub entries: Vec<(String, String, usize)>,
}

impl ParseTable {
    /// Row `k`, abstractly.
    pub open spec fn row(&self, k: int) -> (Seq<char>, Seq<char>, int) {
        (self.entries@[k].0@, self.entries@[k].1@, self.entries@[k].2 as int)
    }

    /// No two rows share a nonterminal and lookahead.
    pub open spec fn wf(&self) -> bool {
        forall|k1: int, k2: int|
            0 <= k1 < k2 < self.entries@.len() ==> !(#[trigger] self.row(k1).0 == #[trigger] self.row(
                k2,
            ).0 && self.row(k1).1 == self.row(k2).1)
    }

    /// The table matches the FIRST and FOLLOW tables of `rules` exactly:
    /// each row is a claimed lookahead of its production, and every claimed
    /// lookahead has its row.
    pub open spec fn complete_for(
        &self,
        rules: Seq<(Seq<char>, Seq<SymModel>)>,
        pf: Seq<Set<Seq<char>>>,
        fm: Map<Seq<char>, Set<Seq<char>>>,
    ) -> bool {
        &&& forall|k: int|
            0 <= k < self.entries@.len() ==> {
                let (n, l, pi) = #[trigger] self.row(k);
                &&& 0 <= pi < rules.len()
                &&& rules[pi].0 == n
                &&& entry_lits(rules, pf, fm, pi).contains(l)
            }
        &&& forall|pi: int, l: Seq<char>|
            0 <= pi < rules.len() && #[trigger] entry_lits(rules, pf, fm, pi).contains(l)
                ==> exists|k: int|
                0 <= k < self.entries@.len() && #[trigger] self.row(k) == (rules[pi].0, l, pi)
    }

    /// Look up the production for a nonterminal and lookahead.
    pub fn lookup(&self, n: &String, l: &String) -> (r: Option<usize>)
        ensures
            match r {
                Some(pi) => exists|k: int|
                    0 <= k < self.entries@.len() && #[trigger] self.row(k) == (
                        n@,
                        l@,
                        pi as int,
                    ),
                None => forall|k: int|
                    0 <= k < self.entries@.len() ==> !(#[trigger] self.row(k).0 == n@ && self.row(
                        k,
                    ).1 == l@),
            },
    {
        let cnt = self.entries.len();
        let mut k: usize = 0;
        while k < cnt
            invariant
                cnt == self.entries@.len(),
                k <= cnt,
                forall|k2: int|
                    0 <= k2 < k ==> !(#[trigger] self.row(k2).0 == n@ && self.row(k2).1 == l@),
            decreases cnt - k,
        {
            if self.entries[k].0.eq(n) && self.entries[k].1.eq(l) {
                proof {
                    assert(self.row(k as int) == (n@, l@, self.entries@[k as int].2 as int));
                }
                return Some(self.entries[k].2);
            }
            k += 1;
        }
        None
    }

    /// The lookaheads of a nonterminal's row, for diagnostics.
    /// The lookaheads among the first `upto` rows whose nonterminal is
    /// `n`, in table order.
    pub open spec fn spec_lookaheads(&self, n: Seq<char>, upto: int) -> Seq<Seq<char>>
        decreases upto,
    {
        if upto <= 0 {
            Seq::empty()
        } else {
            self.spec_lookaheads(n, upto - 1).add(
                if self.row(upto - 1).0 == n {
                    seq![self.row(upto - 1).1]
                } else {
                    Seq::empty()
                },
            )
        }
    }

    /// The lookaheads of a nonterminal's rows: exactly the lookahead
    /// components of the table rows for `n`, in order, for diagnostics.
    pub fn expected_lookaheads(&self, n: &String) -> (r: Vec<String>)
        ensures
            terms_view(r@) == self.spec_lookaheads(n@, self.entries@.len() as int),
    {
        let cnt = self.entries.len();
        let mut out: Vec<String> = Vec::new();
        let mut k: usize = 0;
        while k < cnt
            invariant
                cnt == self.entries@.len(),
                k <= cnt,
                terms_view(out@) == self.spec_lookaheads(n@, k as int),
            decreases cnt - k,
        {
            let ghost pre = out@;
            if self.entries[k].0.eq(n) {
                out.push(self.entries[k].1.clone());
                proof {
                    assert(self.row(k as int).0 == n@);
                    assert(out@ == pre.push(out@.last()));
                    assert(terms_view(out@) =~= terms_view(pre).push(self.row(k as int).1));
                    assert(terms_view(out@) =~= self.spec_lookaheads(n@, k + 1));
                }
            } else {
                proof {
                    assert(self.row(k as int).0 != n@);
                    assert(terms_view(out@) =~= self.spec_lookaheads(n@, k + 1));
                }
            }
            k += 1;
        }
        out
    }
}

/// The canonical FIRST and FOLLOW tables of a grammar: FIRST is the
/// exact fixed point and below every table closed under one FIRST step;
/// FOLLOW is closed, seeded, justified, bounded by the literal universe,
/// and below every closed seeded candidate.  These pin both tables to
/// the least fixed points of their monotone systems.
pub open spec fn canonical_tables(
    rules: Seq<(Seq<char>, Seq<SymModel>)>,
    start: Seq<char>,
    pf: Seq<Set<Seq<char>>>,
    m: Map<Seq<char>, Set<Seq<char>>>,
    fm: Map<Seq<char>, Set<Seq<char>>>,
) -> bool {
    &&& first_tables_ok(rules, pf, m)
    &&& forall|m2: Map<Seq<char>, Set<Seq<char>>>|
        #[trigger] first_point_closed(rules, m2) ==> forall|n: Seq<char>| #[trigger]
            m.dom().contains(n) ==> m[n].subset_of(m2[n])
    &&& follow_closed(rules, m, fm)
    &&& fm.dom().contains(start)
    &&& fm[start].contains(eps())
    &&& follow_justified(rules, start, m, fm)
    &&& forall|n: Seq<char>| #[trigger]
        fm.dom().contains(n) ==> fm[n].subset_of(lit_universe(rules))
    &&& forall|f: Map<Seq<char>, Set<Seq<char>>>|
        #[trigger] follow_candidate(rules, start, m, f) ==> forall|n: Seq<char>| #[trigger]
            fm.dom().contains(n) ==> fm[n].subset_of(follow_at(f, n))
}

/// All facts that the generated tables satisfy together: the canonical
/// FIRST and FOLLOW tables, and the table matching them exactly.
pub open spec fn tables_ok(
    rules: Seq<(Seq<char>, Seq<SymModel>)>,
    start: Seq<char>,
    t: ParseTable,
    pf: Seq<Set<Seq<char>>>,
    m: Map<Seq<char>, Set<Seq<char>>>,
    fm: Map<Seq<char>, Set<Seq<char>>>,
) -> bool {
    &&& canonical_tables(rules, start, pf, m, fm)
    &&& t.wf()
    &&& t.complete_for(rules, pf, fm)
    &&& ll1_ok(rules, pf, fm)
}

/// Build the LL(1) dispatch table from a grammar.
///
/// Succeeds exactly when no two productions of one nonterminal claim the
/// same lookahead; a conflict is reported with the nonterminal, the
/// lookahead and the two production indices.
fn gen_parsetable(g: &GrammarChomsky) -> (r: Result<
    (ParseTable, Ghost<(Seq<Set<Seq<char>>>, Map<Seq<char>, Set<Seq<char>>>, Map<Seq<char>, Set<Seq<char>>>)>),
    GrammarError,
>)
    ensures
        match r {
            Ok(p) => tables_ok(g@.rules, g@.start, p.0, p.1@.0, p.1@.1, p.1@.2),
            Err(e) => {
                &&& e is Conflict
                &&& e matches GrammarError::Conflict {
                    nonterminal,
                    lookahead,
                    first_production,
                    second_production,
                } ==> {
                    &&& 0 <= first_production < second_production < g@.rules.len()
                    &&& g@.rules[first_production as int].0 == nonterminal@
                    &&& g@.rules[second_production as int].0 == nonterminal@
                    &&& exists|
                        pf: Seq<Set<Seq<char>>>,
                        m: Map<Seq<char>, Set<Seq<char>>>,
                        fm: Map<Seq<char>, Set<Seq<char>>>,
                    |
                        {
                            &&& #[trigger] canonical_tables(g@.rules, g@.start, pf, m, fm)
                            &&& entry_lits(g@.rules, pf, fm,
                                first_production as int).contains(lookahead@)
                            &&& entry_lits(g@.rules, pf, fm,
                                second_production as int).contains(lookahead@)
                            &&& !ll1_ok(g@.rules, pf, fm)
                        }
                }
            },
        },
{
    let ghost rules = g@.rules;
    let (pf, sym) = get_first_table(g);
    let fm = get_follow_table(g, &sym);
    let ghost pfv = sets_view(pf@);
    let ghost m = sym.map();
    let ghost fmv = fm.map();
    let mut entries: Vec<(String, String, usize)> = Vec::new();
    let e = String::new();
    let n = g.rules.len();
    let mut i: usize = 0;
    while i < n
        invariant
            rules == g@.rules,
            pfv == sets_view(pf@),
            m == sym.map(),
            fmv == fm.map(),
            sym.wf(),
            fm.wf(),
            canonical_tables(rules, g@.start, pfv, m, fmv),
            n == rules.len(),
            i <= n,
            e@ == eps(),
            pf@.len() == n,
            forall|k: int| 0 <= k < pf@.len() ==> (#[trigger] pf@[k]).wf(),
            (ParseTable { entries }).wf(),
            forall|k: int|
                0 <= k < entries@.len() ==> {
                    let (nn, l, pi) = #[trigger] (ParseTable { entries }).row(k);
                    &&& 0 <= pi < i
                    &&& rules[pi].0 == nn
                    &&& entry_lits(rules, pfv, fmv, pi).contains(l)
                },
            forall|pi: int, l: Seq<char>|
                0 <= pi < i && #[trigger] entry_lits(rules, pfv, fmv, pi).contains(l)
                    ==> exists|k: int|
                    0 <= k < entries@.len() && #[trigger] (ParseTable { entries }).row(k) == (
                        rules[pi].0,
                        l,
                        pi,
                    ),
        decreases n - i,
    {
        // the lookaheads claimed by production i
        let mut el = LitSet::new();
        let fcount = pf[i].len();
        let mut b: usize = 0;
        while b < fcount
            invariant
                pfv == sets_view(pf@),
                i < pf@.len(),
                fcount == pf@[i as int].lits().len(),
                b <= fcount,
                pf@[i as int].wf(),
                el.wf(),
                el.set().subset_of(pfv[i as int].remove(eps())),
                forall|c: int|
                    0 <= c < b && (#[trigger] pf@[i as int].lits()[c]) != eps()
                        ==> el.set().contains(pf@[i as int].lits()[c]),
            decreases fcount - b,
        {
            let x = pf[i].index(b);
            if !x.as_str().is_empty() {
                proof {
                    assert(x@ != eps());
                    assert(pfv[i as int].contains(x@));
                }
                el.insert_lit(x);
            } else {
                proof {
                    assert(x@ =~= eps());
                }
            }
            b += 1;
        }
        proof {
            assert forall|x: Seq<char>|
                pfv[i as int].remove(eps()).contains(x) implies el.set().contains(x) by {
                let c = choose|c: int|
                    0 <= c < pf@[i as int].lits().len() && pf@[i as int].lits()[c] == x;
                assert(pf@[i as int].lits()[c] != eps());
            }
        }
        let nullable = pf[i].contains_lit(&e);
        proof {
            assert(pfv[i as int] == pf@[i as int].set());
            assert(rules[i as int].0 == g.rules@[i as int].0@);
        }
        if nullable {
            match fm.get(&g.rules[i].0) {
                Some(f) => {
                    proof {
                        assert(f.set() == follow_at(fmv, rules[i as int].0));
                    }
                    el.union_from(f);
                    proof {
                        assert(el.set() =~= entry_lits(rules, pfv, fmv, i as int));
                    }
                },
                None => {
                    proof {
                        assert(follow_at(fmv, rules[i as int].0) =~= Set::<Seq<char>>::empty());
                        assert(el.set() =~= entry_lits(rules, pfv, fmv, i as int));
                    }
                },
            }
        } else {
            proof {
                assert(el.set() =~= entry_lits(rules, pfv, fmv, i as int));
            }
        }
        // claim each lookahead, detecting collisions
        let ecount = el.len();
        let mut b2: usize = 0;
        while b2 < ecount
            invariant
                rules == g@.rules,
                pfv == sets_view(pf@),
                m == sym.map(),
                fmv == fm.map(),
                sym.wf(),
                fm.wf(),
                canonical_tables(rules, g@.start, pfv, m, fmv),
                n == rules.len(),
                i < n,
                el.wf(),
                ecount == el.lits().len(),
                b2 <= ecount,
                el.set() == entry_lits(rules, pfv, fmv, i as int),
                rules[i as int].0 == g.rules@[i as int].0@,
                (ParseTable { entries }).wf(),
                forall|k: int|
                    0 <= k < entries@.len() ==> {
                        let (nn, l, pi) = #[trigger] (ParseTable { entries }).row(k);
                        &&& 0 <= pi <= i
                        &&& rules[pi].0 == nn
                        &&& entry_lits(rules, pfv, fmv, pi).contains(l)
                    },
                forall|pi: int, l: Seq<char>|
                    0 <= pi < i && #[trigger] entry_lits(rules, pfv, fmv, pi).contains(l)
                        ==> exists|k: int|
                        0 <= k < entries@.len() && #[trigger] (ParseTable { entries }).row(k)
                            == (rules[pi].0, l, pi),
                forall|c: int|
                    0 <= c < b2 ==> exists|k: int|
                        0 <= k < entries@.len() && #[trigger] (ParseTable { entries }).row(k)
                            == (rules[i as int].0, #[trigger] el.lits()[c], i as int),
        decreases ecount - b2,
        {
            let l = el.index(b2);
            let t0 = ParseTable { entries };
            let found = t0.lookup(&g.rules[i].0, l);
            let ParseTable { entries: entries2 } = t0;
            entries = entries2;
            match found {
                Some(pi) => {
                    if pi != i {
                        proof {
                            let k = choose|k: int|
                                0 <= k < entries@.len() && #[trigger] (ParseTable {
                                    entries,
                                }).row(k) == (g.rules@[i as int].0@, l@, pi as int);
                            assert(entry_lits(rules, pfv, fmv, pi as int).contains(l@));
                            assert(entry_lits(rules, pfv, fmv, i as int).contains(l@));
                            assert(rules[pi as int].0 == rules[i as int].0);
                            assert(!entry_lits(rules, pfv, fmv, pi as int).disjoint(
                                entry_lits(rules, pfv, fmv, i as int),
                            ));
                            assert(!ll1_ok(rules, pfv, fmv));
                            assert(canonical_tables(g@.rules, g@.start, pfv, m, fmv));
                        }
                        return Err(
                            GrammarError::Conflict {
                                nonterminal: g.rules[i].0.clone(),
                                lookahead: l.clone(),
                                first_production: pi,
                                second_production: i,
                            },
                        );
                    }
                    proof {
                        assert forall|c: int| 0 <= c < b2 + 1 implies exists|k: int|
                            0 <= k < entries@.len() && #[trigger] (ParseTable {
                                entries,
                            }).row(k) == (rules[i as int].0, #[trigger] el.lits()[c], i as int) by {
                            if c == b2 {
                                assert(el.lits()[c] == l@);
                                let k = choose|k: int|
                                    0 <= k < entries@.len() && #[trigger] (ParseTable {
                                        entries,
                                    }).row(k) == (g.rules@[i as int].0@, l@, i as int);
                                assert((ParseTable { entries }).row(k) == (
                                    rules[i as int].0,
                                    el.lits()[c],
                                    i as int,
                                ));
                            }
                        }
                    }
                },
                None => {
                    let ghost pre = entries@;
                    let ghost tpre = (ParseTable { entries });
                    entries.push((g.rules[i].0.clone(), l.clone(), i));
                    proof {
                        let t1 = ParseTable { entries };
                        assert forall|k: int| 0 <= k < pre.len() implies tpre.row(k) == t1.row(
                            k,
                        ) by {
                            assert(entries@[k] == pre[k]);
                        }
                        assert(t1.row(pre.len() as int) == (
                            rules[i as int].0,
                            el.lits()[b2 as int],
                            i as int,
                        ));
                        assert forall|k1: int, k2: int|
                            0 <= k1 < k2 < entries@.len() implies !(#[trigger] t1.row(k1).0
                            == #[trigger] t1.row(k2).0 && t1.row(k1).1 == t1.row(k2).1) by {
                            if k2 == pre.len() {
                                assert(tpre.row(k1) == t1.row(k1));
                            } else {
                                assert(tpre.row(k1) == t1.row(k1));
                                assert(tpre.row(k2) == t1.row(k2));
                            }
                        }
                        assert forall|k: int|
                            0 <= k < entries@.len() implies {
                            let (nn, l2, pi) = #[trigger] t1.row(k);
                            &&& 0 <= pi <= i
                            &&& rules[pi].0 == nn
                            &&& entry_lits(rules, pfv, fmv, pi).contains(l2)
                        } by {
                            if k < pre.len() {
                                assert(tpre.row(k) == t1.row(k));
                            } else {
                                assert(t1.row(k) == (
                                    rules[i as int].0,
                                    el.lits()[b2 as int],
                                    i as int,
                                ));
                                assert(el.set().contains(el.lits()[b2 as int]));
                            }
                        }
                        assert forall|pi: int, l2: Seq<char>|
                            0 <= pi < i && #[trigger] entry_lits(rules, pfv, fmv, pi).contains(
                                l2,
                            ) implies exists|k: int|
                            0 <= k < entries@.len() && #[trigger] t1.row(k) == (
                                rules[pi].0,
                                l2,
                                pi,
                            ) by {
                            let k = choose|k: int|
                                0 <= k < pre.len() && #[trigger] tpre.row(k) == (
                                    rules[pi].0,
                                    l2,
                                    pi,
                                );
                            assert(t1.row(k) == (rules[pi].0, l2, pi));
                        }
                        assert forall|c: int| 0 <= c < b2 + 1 implies exists|k: int|
                            0 <= k < entries@.len() && #[trigger] t1.row(k) == (
                                rules[i as int].0,
                                #[trigger] el.lits()[c],
                                i as int,
                            ) by {
                            if c < b2 {
                                let k = choose|k: int|
                                    0 <= k < pre.len() && #[trigger] tpre.row(k) == (
                                        rules[i as int].0,
                                        el.lits()[c],
                                        i as int,
                                    );
                                assert(t1.row(k) == (rules[i as int].0, el.lits()[c], i as int));
                            } else {
                                assert(t1.row(pre.len() as int) == (
                                    rules[i as int].0,
                                    el.lits()[c],
                                    i as int,
                                ));
                            }
                        }
                    }
                },
            }
            b2 += 1;
        }
        proof {
            assert forall|pi: int, l: Seq<char>|
                0 <= pi < i + 1 && #[trigger] entry_lits(rules, pfv, fmv, pi).contains(
                    l,
                ) implies exists|k: int|
                0 <= k < entries@.len() && #[trigger] (ParseTable { entries }).row(k) == (
                    rules[pi].0,
                    l,
                    pi,
                ) by {
                if pi == i {
                    let c = choose|c: int|
                        0 <= c < el.lits().len() && el.lits()[c] == l;
                }
            }
        }
        i += 1;
    }
    let t = ParseTable { entries };
    proof {
        assert(ll1_ok(rules, pfv, fmv)) by {
            assert forall|i1: int, j1: int|
                0 <= i1 < j1 < rules.len() && (#[trigger] rules[i1]).0 == (
                #[trigger] rules[j1]).0 implies entry_lits(rules, pfv, fmv, i1).disjoint(
                entry_lits(rules, pfv, fmv, j1),
            ) by {
                if !entry_lits(rules, pfv, fmv, i1).disjoint(entry_lits(rules, pfv, fmv, j1)) {
                    let x = choose|x: Seq<char>|
                        entry_lits(rules, pfv, fmv, i1).contains(x) && entry_lits(
                            rules,
                            pfv,
                            fmv,
                            j1,
                        ).contains(x);
                    let k1 = choose|k: int|
                        0 <= k < t.entries@.len() && #[trigger] t.row(k) == (
                            rules[i1].0,
                            x,
                            i1,
                        );
                    let k2 = choose|k: int|
                        0 <= k < t.entries@.len() && #[trigger] t.row(k) == (
                            rules[j1].0,
                            x,
                            j1,
                        );
                    assert(t.row(k1).0 == t.row(k2).0 && t.row(k1).1 == t.row(k2).1);
                    assert(t.row(k1).2 != t.row(k2).2);
                    if k1 < k2 {
                        assert(false);
                    } else if k2 < k1 {
                        assert(false);
                    }
                }
            }
        }
        assert(tables_ok(rules, g@.start, t, pfv, m, fmv));
    }
    Ok((t, Ghost((pfv, m, fmv))))
}

/// A token of the parsed input, abstractly.
pub ghost struct TokenModel {
    pub text: Seq<char>,
    pub is_end: bool,
    pub line: int,
    pub column: int,
    pub str_pos: int,
}

/// A token of the parsed input: the matched literal (or the synthetic
/// end-of-input marker) with its position, counted in characters.
#[derive(Debug)]
pub struct Token {
    pub text: String,
    pub is_end: bool,
    pub line: usize,
    pub column: usize,
    pub str_pos: usize,
}

impl View for Token {
    type V = TokenModel;

    open spec fn view(&self) -> TokenModel {
        TokenModel {
            text: self.text@,
            is_end: self.is_end,
            line: self.line as int,
            column: self.column as int,
            str_pos: self.str_pos as int,
        }
    }
}

impl Clone for Token {
    fn clone(&self) -> (r: Self)
        ensures
            r@ == self@,
    {
        Token {
            text: self.text.clone(),
            is_end: self.is_end,
            line: self.line,
            column: self.column,
            str_pos: self.str_pos,
        }
    }
}

impl Token {
    /// The token's text; the end-of-input marker reads `EOF`.
    pub fn as_str(&self) -> (r: String)
        ensures
            !self.is_end ==> r@ == self.text@,
            self.is_end ==> r@ == "EOF"@,
    {
        if self.is_end {
            "EOF".to_owned()
        } else {
            self.text.clone()
        }
    }

    pub fn line(&self) -> (r: usize)
        ensures
            r == self.line,
    {
        self.line
    }

    pub fn column(&self) -> (r: usize)
        ensures
            r == self.column,
    {
        self.column
    }

    pub fn str_pos(&self) -> (r: usize)
        ensures
            r == self.str_pos,
    {
        self.str_pos
    }
}

/// A concrete syntax tree, abstractly.
pub ghost enum AstModel {
    Node { name: Seq<char>, children: Seq<AstModel> },
    Tok(TokenModel),
}

/// A concrete syntax tree: a named branch for each visible nonterminal,
/// a leaf for each consumed token.
#[derive(Debug)]
pub enum AST {
    Node { name: String, children: Vec<AST> },
    Token(Token),
}

/// Abstract value of a syntax tree.
pub open spec fn ast_view(a: AST) -> AstModel
    decreases a,
{
    match a {
        AST::Node { name, children } => AstModel::Node {
            name: name@,
            children: ast_views(children@),
        },
        AST::Token(t) => AstModel::Tok(t@),
    }
}

/// Abstract values of a list of syntax trees.
pub open spec fn ast_views(s: Seq<AST>) -> Seq<AstModel>
    decreases s,
{
    if s.len() == 0 {
        Seq::empty()
    } else {
        seq![ast_view(s.first())].add(ast_views(s.drop_first()))
    }
}

pub proof fn lemma_ast_views(s: Seq<AST>)
    ensures
        ast_views(s).len() == s.len(),
        forall|i: int| 0 <= i < s.len() ==> ast_views(s)[i] == ast_view(s[i]),
    decreases s.len(),
{
    if s.len() > 0 {
        lemma_ast_views(s.drop_first());
    }
}

impl View for AST {
    type V = AstModel;

    open spec fn view(&self) -> AstModel {
        ast_view(*self)
    }
}

/// The tokens at the leaves of a tree, left to right.
pub open spec fn ast_leaves(a: AstModel) -> Seq<TokenModel>
    decreases a,
{
    match a {
        AstModel::Node { name, children } => forest_leaves(children),
        AstModel::Tok(t) => seq![t],
    }
}

/// The leaves of a list of trees, in order.
pub open spec fn forest_leaves(s: Seq<AstModel>) -> Seq<TokenModel>
    decreases s,
{
    if s.len() == 0 {
        Seq::empty()
    } else {
        ast_leaves(s.first()).add(forest_leaves(s.drop_first()))
    }
}

/// Appending a tree appends its leaves.
pub proof fn lemma_forest_leaves_snoc(s: Seq<AstModel>, x: AstModel)
    ensures
        forest_leaves(s.push(x)) == forest_leaves(s).add(ast_leaves(x)),
    decreases s.len(),
{
    reveal_with_fuel(forest_leaves, 3);
    if s.len() == 0 {
        assert(s.push(x).first() == x);
        assert(s.push(x).drop_first() =~= Seq::empty());
        assert(forest_leaves(s.push(x)) =~= forest_leaves(s).add(ast_leaves(x)));
    } else {
        assert(s.push(x).first() == s.first());
        assert(s.push(x).drop_first() =~= s.drop_first().push(x));
        lemma_forest_leaves_snoc(s.drop_first(), x);
        assert(forest_leaves(s.push(x)) =~= forest_leaves(s).add(ast_leaves(x)));
    }
}

/// A failure while parsing input against the grammar.
#[derive(Debug)]
pub enum ParseError {
    /// No production of the expected nonterminal claims the lookahead.
    UnexpectedToken { expected: Vec<String>, got: Token },
    /// The next terminal on the stack does not match the lookahead.
    ExpectedTerminal { expected: String, got: Token },
    /// The grammar was fully recognised before the input ran out.
    TrailingInput { at: Token },
    /// An internal invariant was violated; this should be unreachable.
    Internal,
}

/// A run of `n` copies of `c`.
pub open spec fn char_repeat(c: char, n: int) -> Seq<char>
    decreases n,
{
    if n <= 0 {
        Seq::empty()
    } else {
        char_repeat(c, n - 1).push(c)
    }
}

/// A caret line underlining `len` characters starting at column `pos`.
pub fn print_arrow(pos: usize, len: usize) -> (r: String)
    requires
        pos + len < usize::MAX,
    ensures
        r@ == char_repeat(' ', pos as int).add(
            char_repeat(
                '^',
                if len == 0 {
                    1
                } else {
                    len as int
                },
            ),
        ),
{
    let mut r = String::new();
    let mut i: usize = 0;
    while i < pos
        invariant
            i <= pos,
            r@ == char_repeat(' ', i as int),
        decreases pos - i,
    {
        r.push(' ');
        i += 1;
    }
    let carets = if len == 0 {
        1
    } else {
        len
    };
    let mut j: usize = 0;
    while j < carets
        invariant
            j <= carets,
            carets == if len == 0 {
                1
            } else {
                len as int
            },
            r@ == char_repeat(' ', pos as int).add(char_repeat('^', j as int)),
        decreases carets - j,
    {
        r.push('^');
        j += 1;
    }
    r
}

/// `t` is a prefix of the input at position `pos`.
pub open spec fn is_prefix_at(input: Seq<char>, pos: int, t: Seq<char>) -> bool {
    &&& 0 <= pos
    &&& pos + t.len() <= input.len()
    &&& input.subrange(pos, pos + t.len()) == t
}

/// `terms[c]` wins the longest-prefix match at `pos`: it is a nonempty
/// prefix, no longer prefix exists, and among equally long prefixes it is
/// the earliest declared.
pub open spec fn chosen_match(
    input: Seq<char>,
    pos: int,
    terms: Seq<Seq<char>>,
    c: int,
) -> bool {
    &&& 0 <= c < terms.len()
    &&& terms[c].len() > 0
    &&& is_prefix_at(input, pos, terms[c])
    &&& forall|d: int|
        0 <= d < terms.len() && (#[trigger] terms[d]).len() > 0 && is_prefix_at(
            input,
            pos,
            terms[d],
        ) ==> terms[d].len() < terms[c].len() || (terms[d].len() == terms[c].len() && d >= c)
}

pub proof fn lemma_chosen_unique(input: Seq<char>, pos: int, terms: Seq<Seq<char>>, c1: int, c2: int)
    requires
        chosen_match(input, pos, terms, c1),
        chosen_match(input, pos, terms, c2),
    ensures
        c1 == c2,
{
    assert(terms[c1].len() == terms[c2].len());
}

/// Line and column after reading the characters of `t`: a newline
/// advances the line and resets the column.
pub open spec fn advance_pos(line: int, col: int, t: Seq<char>) -> (int, int)
    decreases t.len(),
{
    if t.len() == 0 {
        (line, col)
    } else if t.first() == '\n' {
        advance_pos(line + 1, 0, t.drop_first())
    } else {
        advance_pos(line, col + 1, t.drop_first())
    }
}

/// What scanning the input from `pos` yields: the tokens, and the line,
/// column and position where scanning stopped (the input's end, or the
/// first position no terminal matches).
pub ghost struct ScanResult {
    pub toks: Seq<TokenModel>,
    pub line: int,
    pub col: int,
    pub pos: int,
}

/// Longest-match scan of the input against the terminal alphabet.
pub open spec fn spec_scan(
    input: Seq<char>,
    terms: Seq<Seq<char>>,
    pos: int,
    line: int,
    col: int,
) -> ScanResult
    decreases input.len() - pos,
{
    if pos < 0 || pos >= input.len() || !(exists|c: int| chosen_match(input, pos, terms, c)) {
        ScanResult { toks: Seq::empty(), line, col, pos }
    } else {
        let c = choose|c: int| chosen_match(input, pos, terms, c);
        let t = terms[c];
        let tok = TokenModel { text: t, is_end: false, line, column: col, str_pos: pos };
        let lc = advance_pos(line, col, t);
        let rest = spec_scan(input, terms, pos + t.len(), lc.0, lc.1);
        ScanResult { toks: seq![tok].add(rest.toks), line: rest.line, col: rest.col, pos: rest.pos }
    }
}

/// Abstract values of the terminal alphabet.
pub open spec fn terms_view(ts: Seq<String>) -> Seq<Seq<char>> {
    ts.map_values(|s: String| s@)
}

/// Does terminal `t` match the input at `pos`?
fn match_at(input: &Vec<char>, pos: usize, t: &String) -> (r: bool)
    requires
        pos <= input@.len(),
    ensures
        r == is_prefix_at(input@, pos as int, t@),
{
    let tl = t.as_str().unicode_len();
    if tl > input.len() - pos {
        return false;
    }
    let mut k: usize = 0;
    while k < tl
        invariant
            pos + tl <= input@.len(),
            input@.len() <= usize::MAX,
            tl == t@.len(),
            k <= tl,
            forall|k2: int| 0 <= k2 < k ==> input@[pos + k2] == t@[k2],
        decreases tl - k,
    {
        if input[pos + k] != t.as_str().get_char(k) {
            proof {
                assert(input@[pos + k] != t@[k as int]);
                assert(input@.subrange(pos as int, pos + t@.len()) != t@) by {
                    if input@.subrange(pos as int, pos + t@.len()) == t@ {
                        assert(input@.subrange(pos as int, pos + t@.len())[k as int] == input@[pos
                            + k]);
                    }
                }
            }
            return false;
        }
        k += 1;
    }
    proof {
        assert(input@.subrange(pos as int, pos + t@.len()) =~= t@);
    }
    true
}

/// Advance the line and column counters over the characters of `t`.
fn advance_counters(line: &mut usize, col: &mut usize, t: &String)
    requires
        *old(line) + t@.len() < usize::MAX,
        *old(col) + t@.len() < usize::MAX,
    ensures
        (*final(line) as int, *final(col) as int) == advance_pos(
            *old(line) as int,
            *old(col) as int,
            t@,
        ),
        *final(line) <= *old(line) + t@.len(),
        *final(col) <= *old(col) + t@.len(),
{
    let tl = t.as_str().unicode_len();
    proof {
        assert(t@.skip(0) =~= t@);
    }
    let mut k: usize = 0;
    while k < tl
        invariant
            tl == t@.len(),
            k <= tl,
            *line + (tl - k) < usize::MAX,
            *col + (tl - k) < usize::MAX,
            *line <= *old(line) + k,
            *col <= *old(col) + k,
            advance_pos(*old(line) as int, *old(col) as int, t@) == advance_pos(
                *line as int,
                *col as int,
                t@.skip(k as int),
            ),
        decreases tl - k,
    {
        let c = t.as_str().get_char(k);
        let ghost pre = t@.skip(k as int);
        proof {
            assert(pre.first() == t@[k as int]);
            assert(pre.drop_first() =~= t@.skip(k + 1));
        }
        if c == '\n' {
            *line = *line + 1;
            *col = 0;
        } else {
            *col = *col + 1;
        }
        k += 1;
    }
    proof {
        assert(t@.skip(tl as int) =~= Seq::<char>::empty());
    }
}

/// Split the input into tokens by longest-prefix match over the terminal
/// alphabet, earliest declared literal winning ties; returns the tokens
/// and the line, column and position where scanning stopped.
fn tokenize_input(input: &Vec<char>, terms: &Vec<String>) -> (r: (Vec<Token>, usize, usize, usize))
    requires
        input@.len() < usize::MAX - 1,
    ensures
        ({
            let s = spec_scan(input@, terms_view(terms@), 0, 0, 0);
            &&& ast_token_views(r.0@) == s.toks
            &&& r.1 as int == s.line
            &&& r.2 as int == s.col
            &&& r.3 as int == s.pos
        }),
{
    let ghost tv = terms_view(terms@);
    let ghost full = spec_scan(input@, tv, 0, 0, 0);
    let mut toks: Vec<Token> = Vec::new();
    let mut pos: usize = 0;
    let mut line: usize = 0;
    let mut col: usize = 0;
    loop
        invariant
            tv == terms_view(terms@),
            full == spec_scan(input@, tv, 0, 0, 0),
            input@.len() < usize::MAX - 1,
            pos <= input@.len(),
            line <= pos,
            col <= pos,
            ({
                let rest = spec_scan(input@, tv, pos as int, line as int, col as int);
                &&& full.toks == ast_token_views(toks@).add(rest.toks)
                &&& full.line == rest.line
                &&& full.col == rest.col
                &&& full.pos == rest.pos
            }),
        decreases input@.len() - pos,
    {
        if pos >= input.len() {
            proof {
                assert(spec_scan(input@, tv, pos as int, line as int, col as int).toks
                    =~= Seq::<TokenModel>::empty());
                assert(full.toks =~= ast_token_views(toks@));
            }
            return (toks, line, col, pos);
        }
        // find the longest, earliest-declared matching terminal
        let tcount = terms.len();
        let mut best: usize = 0;
        let mut best_found = false;
        let mut best_len: usize = 0;
        let mut d: usize = 0;
        while d < tcount
            invariant
                tv == terms_view(terms@),
                pos <= input@.len(),
                tcount == terms@.len(),
                d <= tcount,
                best_found ==> {
                    &&& best < d
                    &&& tv[best as int].len() == best_len
                    &&& best_len > 0
                    &&& is_prefix_at(input@, pos as int, tv[best as int])
                    &&& forall|d2: int|
                        0 <= d2 < d && (#[trigger] tv[d2]).len() > 0 && is_prefix_at(
                            input@,
                            pos as int,
                            tv[d2],
                        ) ==> tv[d2].len() < best_len || (tv[d2].len() == best_len && d2
                            >= best)
                },
                !best_found ==> forall|d2: int|
                    0 <= d2 < d ==> !((#[trigger] tv[d2]).len() > 0 && is_prefix_at(
                        input@,
                        pos as int,
                        tv[d2],
                    )),
            decreases tcount - d,
        {
            let t = &terms[d];
            let tl = t.as_str().unicode_len();
            if tl > 0 && (!best_found || tl > best_len) {
                if match_at(input, pos, t) {
                    best = d;
                    best_found = true;
                    best_len = tl;
                }
            }
            d += 1;
        }
        if !best_found {
            proof {
                assert forall|c: int| !chosen_match(input@, pos as int, tv, c) by {}
                assert(spec_scan(input@, tv, pos as int, line as int, col as int).toks
                    =~= Seq::<TokenModel>::empty());
                assert(full.toks =~= ast_token_views(toks@));
            }
            return (toks, line, col, pos);
        }
        proof {
            assert(chosen_match(input@, pos as int, tv, best as int));
        }
        let t = terms[best].clone();
        let tok = Token { text: t.clone(), is_end: false, line, column: col, str_pos: pos };
        let ghost pre_toks = toks@;
        let ghost rest0 = spec_scan(input@, tv, pos as int, line as int, col as int);
        toks.push(tok);
        proof {
            let c = choose|c: int| chosen_match(input@, pos as int, tv, c);
            lemma_chosen_unique(input@, pos as int, tv, c, best as int);
            assert(ast_token_views(toks@) =~= ast_token_views(pre_toks).push(
                TokenModel {
                    text: t@,
                    is_end: false,
                    line: line as int,
                    column: col as int,
                    str_pos: pos as int,
                },
            ));
        }
        let tl = t.as_str().unicode_len();
        advance_counters(&mut line, &mut col, &t);
        pos = pos + tl;
        proof {
            let rest1 = spec_scan(input@, tv, pos as int, line as int, col as int);
            assert(rest0.toks =~= seq![
                TokenModel {
                    text: t@,
                    is_end: false,
                    line: tok.line as int,
                    column: tok.column as int,
                    str_pos: tok.str_pos as int,
                },
            ].add(rest1.toks));
            assert(full.toks =~= ast_token_views(toks@).add(rest1.toks));
        }
    }
}

/// Abstract values of a token vector.
pub open spec fn ast_token_views(ts: Seq<Token>) -> Seq<TokenModel> {
    ts.map_values(|t: Token| t@)
}

/// The terminal literals of a grammar.
pub open spec fn term_lit_set(rules: Seq<(Seq<char>, Seq<SymModel>)>) -> Set<Seq<char>> {
    Set::new(
        |t: Seq<char>|
            exists|i: int, j: int|
                0 <= i < rules.len() && 0 <= j < rules[i].1.len() && rules[i].1[j]
                    == SymModel::Term(t),
    )
}

impl GrammarChomsky {
    /// The terminal alphabet: the distinct literals appearing as terminal
    /// symbols, in order of first appearance.
    pub fn terminals(&self) -> (r: Vec<String>)
        ensures
            terms_view(r@).no_duplicates(),
            terms_view(r@).to_set() == term_lit_set(self@.rules),
    {
        let ghost rv = self@.rules;
        let mut ts = LitSet::new();
        let n = self.rules.len();
        let mut i: usize = 0;
        while i < n
            invariant
                rv == self@.rules,
                n == self.rules@.len(),
                i <= n,
                ts.wf(),
                ts.set() == Set::new(
                    |t: Seq<char>|
                        exists|i2: int, j: int|
                            0 <= i2 < i && 0 <= j < rv[i2].1.len() && rv[i2].1[j]
                                == SymModel::Term(t),
                ),
            decreases n - i,
        {
            let ghost pre = ts.set();
            let m = self.rules[i].1.len();
            let mut j: usize = 0;
            while j < m
                invariant
                    rv == self@.rules,
                    n == self.rules@.len(),
                    i < n,
                    m == self.rules@[i as int].1@.len(),
                    j <= m,
                    ts.wf(),
                    ts.set() == pre.union(
                        Set::new(
                            |t: Seq<char>|
                                exists|l: int|
                                    0 <= l < j && rv[i as int].1[l] == SymModel::Term(t),
                        ),
                    ),
                decreases m - j,
            {
                match &self.rules[i].1[j] {
                    NT::Term(t) => {
                        ts.insert_lit(t);
                        proof {
                            assert(rv[i as int].1[j as int] == SymModel::Term(t@));
                        }
                    },
                    _ => {
                        proof {
                            assert(!(rv[i as int].1[j as int] matches SymModel::Term(_)));
                        }
                    },
                }
                proof {
                    assert(ts.set() =~= pre.union(
                        Set::new(
                            |t: Seq<char>|
                                exists|l: int|
                                    0 <= l < j + 1 && rv[i as int].1[l] == SymModel::Term(t),
                        ),
                    ));
                }
                j += 1;
            }
            proof {
                assert(m == rv[i as int].1.len());
                assert(ts.set() =~= Set::new(
                    |t: Seq<char>|
                        exists|i2: int, j2: int|
                            0 <= i2 < i + 1 && 0 <= j2 < rv[i2].1.len() && rv[i2].1[j2]
                                == SymModel::Term(t),
                )) by {
                    assert forall|t: Seq<char>| ts.set().contains(t) implies Set::new(
                        |t2: Seq<char>|
                            exists|i2: int, j2: int|
                                0 <= i2 < i + 1 && 0 <= j2 < rv[i2].1.len() && rv[i2].1[j2]
                                    == SymModel::Term(t2),
                    ).contains(t) by {
                        if pre.contains(t) {
                            let (i2, j2) = choose|i2: int, j2: int|
                                0 <= i2 < i && 0 <= j2 < rv[i2].1.len() && rv[i2].1[j2]
                                    == SymModel::Term(t);
                            assert(rv[i2].1[j2] == SymModel::Term(t));
                        } else {
                            let l = choose|l: int|
                                0 <= l < m && rv[i as int].1[l] == SymModel::Term(t);
                            assert(rv[i as int].1[l] == SymModel::Term(t));
                        }
                    }
                    assert forall|t: Seq<char>| Set::new(
                        |t2: Seq<char>|
                            exists|i2: int, j2: int|
                                0 <= i2 < i + 1 && 0 <= j2 < rv[i2].1.len() && rv[i2].1[j2]
                                    == SymModel::Term(t2),
                    ).contains(t) implies ts.set().contains(t) by {
                        let (i2, j2) = choose|i2: int, j2: int|
                            0 <= i2 < i + 1 && 0 <= j2 < rv[i2].1.len() && rv[i2].1[j2]
                                == SymModel::Term(t);
                        if i2 < i {
                            assert(pre.contains(t));
                        }
                    }
                }
            }
            i += 1;
        }
        proof {
            assert(ts.set() =~= term_lit_set(rv)) by {
                assert forall|t: Seq<char>| ts.set().contains(t) implies term_lit_set(
                    rv,
                ).contains(t) by {
                    let (i2, j2) = choose|i2: int, j2: int|
                        0 <= i2 < n && 0 <= j2 < rv[i2].1.len() && rv[i2].1[j2] == SymModel::Term(
                            t,
                        );
                    assert(rv[i2].1[j2] == SymModel::Term(t));
                }
                assert forall|t: Seq<char>| term_lit_set(rv).contains(t) implies ts.set().contains(
                    t,
                ) by {
                    let (i2, j2) = choose|i2: int, j2: int|
                        0 <= i2 < rv.len() && 0 <= j2 < rv[i2].1.len() && rv[i2].1[j2]
                            == SymModel::Term(t);
                    assert(rv[i2].1[j2] == SymModel::Term(t));
                }
            }
        }
        let ghost lits = ts.lits();
        let r = ts.into_items();
        proof {
            assert(terms_view(r@) == lits);
        }
        r
    }
}

/// Node count of a syntax tree; the measure tree recursion uses.
pub open spec fn ast_size(a: AstModel) -> nat
    decreases a,
{
    match a {
        AstModel::Node { name, children } => 1 + ast_size_list(children),
        AstModel::Tok(_) => 1,
    }
}

/// Node count of a list of syntax trees.
pub open spec fn ast_size_list(s: Seq<AstModel>) -> nat
    decreases s,
{
    if s.len() == 0 {
        0
    } else {
        ast_size(s.first()) + ast_size_list(s.drop_first())
    }
}

pub proof fn lemma_ast_size_elem(s: Seq<AstModel>, i: int)
    requires
        0 <= i < s.len(),
    ensures
        ast_size(s[i]) <= ast_size_list(s),
    decreases s.len(),
{
    if i == 0 {
        assert(s.first() == s[0]);
    } else {
        lemma_ast_size_elem(s.drop_first(), i - 1);
        assert(s.drop_first()[i - 1] == s[i]);
    }
}

/// No branch of the tree carries a hidden name.
pub open spec fn ast_visible(a: AstModel) -> bool
    decreases a,
{
    match a {
        AstModel::Node { name, children } => !hidden_marked(name) && forest_visible(children),
        AstModel::Tok(_) => true,
    }
}

/// No branch of any of the trees carries a hidden name.
pub open spec fn forest_visible(s: Seq<AstModel>) -> bool
    decreases s,
{
    if s.len() == 0 {
        true
    } else {
        ast_visible(s.first()) && forest_visible(s.drop_first())
    }
}

pub proof fn lemma_forest_visible_index(s: Seq<AstModel>)
    ensures
        forest_visible(s) <==> forall|i: int| 0 <= i < s.len() ==> ast_visible(#[trigger] s[i]),
    decreases s.len(),
{
    if s.len() > 0 {
        lemma_forest_visible_index(s.drop_first());
        assert(s.first() == s[0]);
        assert(forall|i: int| 0 <= i < s.drop_first().len() ==> s.drop_first()[i] == s[i + 1]);
        if forest_visible(s) {
            assert forall|i: int| 0 <= i < s.len() implies ast_visible(#[trigger] s[i]) by {
                if i > 0 {
                    assert(ast_visible(s.drop_first()[i - 1]));
                }
            }
        }
        if forall|i: int| 0 <= i < s.len() ==> ast_visible(#[trigger] s[i]) {
            assert forall|i: int|
                0 <= i < s.drop_first().len() implies ast_visible(
                #[trigger] s.drop_first()[i],
            ) by {
                assert(s.drop_first()[i] == s[i + 1]);
            }
        }
    }
}

/// Check that no branch of the tree carries a hidden name.
fn check_visible(a: &AST) -> (r: bool)
    ensures
        r == ast_visible(ast_view(*a)),
    decreases ast_size(ast_view(*a)),
{
    match a {
        AST::Token(_) => true,
        AST::Node { name, children } => {
            let hidden = name.as_str().unicode_len() > 0 && name.as_str().get_char(0) == '_';
            if hidden {
                return false;
            }
            let ghost vs = ast_views(children@);
            proof {
                lemma_ast_views(children@);
                lemma_forest_visible_index(vs);
            }
            let n = children.len();
            let mut i: usize = 0;
            while i < n
                invariant
                    n == children@.len(),
                    i <= n,
                    vs == ast_views(children@),
                    vs.len() == n,
                    forall|k: int| 0 <= k < n ==> vs[k] == ast_view(children@[k]),
                    ast_view(*a) == (AstModel::Node { name: name@, children: vs }),
                    !hidden_marked(name@),
                    forall|k: int| 0 <= k < i ==> ast_visible(#[trigger] vs[k]),
                decreases n - i,
            {
                proof {
                    lemma_ast_size_elem(vs, i as int);
                    assert(ast_size(ast_view(children@[i as int])) < ast_size(ast_view(*a)));
                }
                if !check_visible(&children[i]) {
                    proof {
                        lemma_forest_visible_index(vs);
                    }
                    return false;
                }
                i += 1;
            }
            proof {
                lemma_forest_visible_index(vs);
            }
            true
        },
    }
}

/// An item of the parser's symbol stack, abstractly.
pub ghost enum StackModel {
    Term(Seq<char>),
    Nonterm(Seq<char>),
    Eps,
    PopNode,
}

/// An item of the parser's symbol stack.
pub enum StackObject {
    Term(String),
    Nonterm(String),
    Eps,
    PopNode,
}

impl View for StackObject {
    type V = StackModel;

    open spec fn view(&self) -> StackModel {
        match self {
            StackObject::Term(s) => StackModel::Term(s@),
            StackObject::Nonterm(s) => StackModel::Nonterm(s@),
            StackObject::Eps => StackModel::Eps,
            StackObject::PopNode => StackModel::PopNode,
        }
    }
}

/// Abstract values of a symbol stack.
pub open spec fn stack_views(s: Seq<StackObject>) -> Seq<StackModel> {
    s.map_values(|o: StackObject| o@)
}

/// The stack item standing for a grammar symbol.
pub open spec fn sym_obj(s: SymModel) -> StackModel {
    match s {
        SymModel::Non(a) => StackModel::Nonterm(a),
        SymModel::Term(a) => StackModel::Term(a),
        SymModel::Eps => StackModel::Eps,
    }
}

/// The last `cnt` symbols of a right-hand side as stack items, reversed,
/// the leftmost symbol coming out on top.
pub open spec fn rev_objs(rhs: Seq<SymModel>, cnt: nat) -> Seq<StackModel> {
    Seq::new(cnt, |i: int| sym_obj(rhs[rhs.len() - 1 - i]))
}

/// The whole state of the predictive parser, abstractly: the symbol
/// stack, the tree stack, and how many tokens are consumed.
pub ghost struct DriveState {
    pub stack: Seq<StackModel>,
    pub nodes: Seq<AstModel>,
    pub consumed: int,
}

/// How a parse run ends: a tree, a rejection, or fuel exhaustion.
pub ghost enum DriveOutcome {
    Accept(AstModel),
    Reject,
    OutOfFuel,
}

/// The production the table assigns to a nonterminal and lookahead, where
/// it assigns one; single-valued on well-formed tables.
pub open spec fn table_at(t: ParseTable, n: Seq<char>, l: Seq<char>) -> Option<int> {
    if exists|k: int|
        0 <= k < t.entries@.len() && (#[trigger] t.row(k)).0 == n && t.row(k).1 == l {
        let k = choose|k: int|
            0 <= k < t.entries@.len() && (#[trigger] t.row(k)).0 == n && t.row(k).1 == l;
        Some(t.row(k).2)
    } else {
        None
    }
}

/// The lookup key of the parser\'s lookahead: the next token\'s text, or
/// the empty literal at the end of the stream.
pub open spec fn look_key(toks: Seq<TokenModel>, k: int) -> Seq<char> {
    if 0 <= k < toks.len() {
        toks[k].text
    } else {
        Seq::empty()
    }
}

/// One step of the predictive parser with a nonempty symbol stack, per
/// the top stack item: expand a nonterminal through the table, match a
/// terminal against the lookahead, skip epsilon, or fold a finished
/// branch into its parent.  `None` is a failing step.
#[verifier::opaque]
pub open spec fn drv_step(
    rules: Seq<(Seq<char>, Seq<SymModel>)>,
    t: ParseTable,
    toks: Seq<TokenModel>,
    st: DriveState,
) -> Option<DriveState>
    recommends
        st.stack.len() > 0,
{
    let top = st.stack.last();
    let rest = st.stack.drop_last();
    match top {
        StackModel::Nonterm(non) => match table_at(t, non, look_key(toks, st.consumed)) {
            Some(pi) => if 0 <= pi < rules.len() {
                let rhs = rules[pi].1;
                let pushed = rev_objs(rhs, rhs.len());
                if hidden_marked(non) {
                    Some(
                        DriveState {
                            stack: rest.add(pushed),
                            nodes: st.nodes,
                            consumed: st.consumed,
                        },
                    )
                } else {
                    Some(
                        DriveState {
                            stack: rest.push(StackModel::PopNode).add(pushed),
                            nodes: st.nodes.push(
                                AstModel::Node { name: non, children: Seq::empty() },
                            ),
                            consumed: st.consumed,
                        },
                    )
                }
            } else {
                None
            },
            None => None,
        },
        StackModel::Term(term) => {
            if 0 <= st.consumed < toks.len() && toks[st.consumed].text == term
                && st.nodes.len() > 0 {
                match st.nodes.last() {
                    AstModel::Node { name, children } => Some(
                        DriveState {
                            stack: rest,
                            nodes: st.nodes.drop_last().push(
                                AstModel::Node {
                                    name,
                                    children: children.push(AstModel::Tok(toks[st.consumed])),
                                },
                            ),
                            consumed: st.consumed + 1,
                        },
                    ),
                    AstModel::Tok(_) => None,
                }
            } else {
                None
            }
        },
        StackModel::Eps => Some(
            DriveState { stack: rest, nodes: st.nodes, consumed: st.consumed },
        ),
        StackModel::PopNode => {
            if st.nodes.len() >= 2 {
                let done = st.nodes.last();
                match st.nodes.drop_last().last() {
                    AstModel::Node { name, children } => Some(
                        DriveState {
                            stack: rest,
                            nodes: st.nodes.drop_last().drop_last().push(
                                AstModel::Node { name, children: children.push(done) },
                            ),
                            consumed: st.consumed,
                        },
                    ),
                    AstModel::Tok(_) => None,
                }
            } else {
                None
            }
        },
    }
}

/// Run the parser from a state: step while the symbol stack is nonempty
/// (within the fuel), then demand that all tokens were consumed and
/// unwrap the synthetic root into a visible tree named by `start`.
#[verifier::opaque]
pub open spec fn drv_run(
    rules: Seq<(Seq<char>, Seq<SymModel>)>,
    t: ParseTable,
    toks: Seq<TokenModel>,
    st: DriveState,
    start: Seq<char>,
    fuel: nat,
) -> DriveOutcome
    decreases fuel,
{
    if st.stack.len() == 0 {
        if st.consumed < toks.len() {
            DriveOutcome::Reject
        } else if st.nodes.len() != 1 {
            DriveOutcome::Reject
        } else {
            match st.nodes[0] {
                AstModel::Node { name: _, children } => if children.len() != 1 {
                    DriveOutcome::Reject
                } else {
                    let child = children[0];
                    if !ast_visible(child) {
                        DriveOutcome::Reject
                    } else {
                        match child {
                            AstModel::Node { name, children: _ } => if name == start {
                                DriveOutcome::Accept(child)
                            } else {
                                DriveOutcome::Reject
                            },
                            AstModel::Tok(_) => DriveOutcome::Reject,
                        }
                    }
                },
                AstModel::Tok(_) => DriveOutcome::Reject,
            }
        }
    } else if fuel == 0 {
        DriveOutcome::OutOfFuel
    } else {
        match drv_step(rules, t, toks, st) {
            Some(st2) => drv_run(rules, t, toks, st2, start, (fuel - 1) as nat),
            None => DriveOutcome::Reject,
        }
    }
}

/// The state a parse of `toks` starts from: the start symbol on the
/// symbol stack and the synthetic root on the tree stack.
pub open spec fn drv_init(start: Seq<char>) -> DriveState {
    DriveState {
        stack: seq![StackModel::Nonterm(start)],
        nodes: seq![AstModel::Node { name: "chomchom_root"@, children: Seq::empty() }],
        consumed: 0,
    }
}

/// A generated parser: the grammar, its LL(1) dispatch table and its
/// terminal alphabet, ready to parse input strings.
pub struct Parser {
    pub grammar: GrammarChomsky,
    pub table: ParseTable,
    pub terminals: Vec<String>,
    pub tables_model: Ghost<
        (Seq<Set<Seq<char>>>, Map<Seq<char>, Set<Seq<char>>>, Map<Seq<char>, Set<Seq<char>>>),
    >,
}

impl Parser {
    /// The parser was built from its grammar: the table matches the FIRST
    /// and FOLLOW fixed points and the grammar is LL(1).
    pub open spec fn wf(&self) -> bool {
        tables_ok(
            self.grammar@.rules,
            self.grammar@.start,
            self.table,
            self.tables_model@.0,
            self.tables_model@.1,
            self.tables_model@.2,
        )
    }

    /// Parse an input string into a concrete syntax tree.
    ///
    /// On success the tree's leaves, read left to right, are exactly the
    /// tokens of the input, and every token was consumed.  Hidden
    /// nonterminals (leading underscore) contribute no branch nodes.
    pub fn parse_str(&self, input: &str) -> (r: Result<AST, ParseError>)
        requires
            self.wf(),
        ensures
            r matches Ok(t) ==> ast_leaves(ast_view(t)) == spec_scan(
                input@,
                terms_view(self.terminals@),
                0,
                0,
                0,
            ).toks,
            r matches Ok(t) ==> ast_visible(ast_view(t)),
            r matches Ok(t) ==> ast_view(t) matches AstModel::Node { name, children: _ }
                && name == self.grammar@.start,
            input@.len() < usize::MAX - 1 ==> (r is Ok <==> drv_run(
                self.grammar@.rules,
                self.table,
                spec_scan(input@, terms_view(self.terminals@), 0, 0, 0).toks,
                drv_init(self.grammar@.start),
                self.grammar@.start,
                0xFFFF_FFFF_FFFF_FFFF as nat,
            ) matches DriveOutcome::Accept(_)),
            r matches Ok(t) ==> drv_run(
                self.grammar@.rules,
                self.table,
                spec_scan(input@, terms_view(self.terminals@), 0, 0, 0).toks,
                drv_init(self.grammar@.start),
                self.grammar@.start,
                0xFFFF_FFFF_FFFF_FFFF as nat,
            ) == DriveOutcome::Accept(ast_view(t)),
    {
        let chars = crate::strutil::str_to_char_vec(input);
        if chars.len() >= usize::MAX - 1 {
            return Err(ParseError::Internal);
        }
        let (toks, end_line, end_col, end_pos) = tokenize_input(&chars, &self.terminals);
        proof {
            assert(spec_scan(input@, terms_view(self.terminals@), 0, 0, 0).toks
                == ast_token_views(toks@));
        }
        self.parse_tokens(toks, end_line, end_col, end_pos)
    }

    /// Parse an already-tokenized input into a concrete syntax tree; the
    /// three positions locate the end of the token stream for the
    /// synthetic end-of-input marker's diagnostics.
    ///
    /// On success the tree's leaves, read left to right, are exactly the
    /// given tokens, all of them; the root is a branch named by the start
    /// symbol, and hidden nonterminals (leading underscore) contribute no
    /// branch nodes.
    #[verifier::spinoff_prover]
    #[verifier::rlimit(100)]
    pub fn parse_tokens(
        &self,
        toks: Vec<Token>,
        end_line: usize,
        end_col: usize,
        end_pos: usize,
    ) -> (r: Result<AST, ParseError>)
        requires
            self.wf(),
        ensures
            r matches Ok(t) ==> ast_leaves(ast_view(t)) == ast_token_views(toks@),
            r matches Ok(t) ==> ast_visible(ast_view(t)),
            r matches Ok(t) ==> ast_view(t) matches AstModel::Node { name, children: _ }
                && name == self.grammar@.start,
            r is Ok <==> drv_run(
                self.grammar@.rules,
                self.table,
                ast_token_views(toks@),
                drv_init(self.grammar@.start),
                self.grammar@.start,
                0xFFFF_FFFF_FFFF_FFFF as nat,
            ) matches DriveOutcome::Accept(_),
            r matches Ok(t) ==> drv_run(
                self.grammar@.rules,
                self.table,
                ast_token_views(toks@),
                drv_init(self.grammar@.start),
                self.grammar@.start,
                0xFFFF_FFFF_FFFF_FFFF as nat,
            ) == DriveOutcome::Accept(ast_view(t)),
    {
        let ghost stoks = ast_token_views(toks@);
        let ghost rules = self.grammar@.rules;
        let ghost start = self.grammar@.start;
        let ghost fuel0: nat = 0xFFFF_FFFF_FFFF_FFFF as nat;
        let ghost target = drv_run(rules, self.table, stoks, drv_init(start), start, fuel0);
        let mut stack: Vec<StackObject> = Vec::new();
        stack.push(StackObject::Nonterm(self.grammar.start_nonterm.clone()));
        let mut node_stack: Vec<AST> = Vec::new();
        node_stack.push(AST::Node { name: "chomchom_root".to_owned(), children: Vec::new() });
        proof {
            reveal_with_fuel(forest_leaves, 3);
            reveal_with_fuel(ast_views, 3);
            lemma_ast_views(node_stack@);
            assert(ast_views(node_stack@).len() == 1);
            assert(ast_view(node_stack@[0]) matches AstModel::Node { name: _, children: c }
                && c =~= Seq::<AstModel>::empty());
            assert(forest_leaves(ast_views(node_stack@)) =~= Seq::<TokenModel>::empty());
            assert(ast_token_views(toks@).take(0) =~= Seq::<TokenModel>::empty());
            assert(stack_views(stack@) =~= drv_init(start).stack);
            assert(ast_views(node_stack@) =~= drv_init(start).nodes);
        }
        let mut k: usize = 0;
        let mut fuel: u64 = 0xFFFF_FFFF_FFFF_FFFF;
        while stack.len() > 0
            invariant
                self.wf(),
                stoks == ast_token_views(toks@),
                rules == self.grammar@.rules,
                start == self.grammar@.start,
                fuel0 == 0xFFFF_FFFF_FFFF_FFFF as nat,
                target == drv_run(rules, self.table, stoks, drv_init(start), start, fuel0),
                k <= toks@.len(),
                node_stack@.len() > 0,
                forest_leaves(ast_views(node_stack@)) == ast_token_views(toks@).take(k as int),
                target == drv_run(
                    rules,
                    self.table,
                    stoks,
                    DriveState {
                        stack: stack_views(stack@),
                        nodes: ast_views(node_stack@),
                        consumed: k as int,
                    },
                    start,
                    fuel as nat,
                ),
            decreases fuel,
        {
            let ghost st_head = DriveState {
                stack: stack_views(stack@),
                nodes: ast_views(node_stack@),
                consumed: k as int,
            };
            let ghost fuel_head = fuel as nat;
            proof {
                assert(st_head.stack.len() > 0);
            }
            if fuel == 0 {
                proof {
                    reveal_with_fuel(drv_run, 2);
                    assert(target == DriveOutcome::OutOfFuel);
                }
                return Err(ParseError::Internal);
            }
            fuel = fuel - 1;
            let top = match stack.pop() {
                Some(x) => x,
                None => {
                    proof {
                        assert(false);
                    }
                    return Err(ParseError::Internal);
                },
            };
            proof {
                assert(top@ == st_head.stack.last());
                assert(stack_views(stack@) =~= st_head.stack.drop_last());
            }
            match top {
                StackObject::Nonterm(non) => {
                    let key = if k < toks.len() {
                        toks[k].text.clone()
                    } else {
                        String::new()
                    };
                    match self.table.lookup(&non, &key) {
                        Some(pi) => {
                            proof {
                                let krow = choose|kk: int|
                                    0 <= kk < self.table.entries@.len()
                                        && #[trigger] self.table.row(kk) == (
                                        non@,
                                        key@,
                                        pi as int,
                                    );
                                assert(0 <= pi < self.grammar@.rules.len());
                                assert(key@ == look_key(stoks, k as int));
                                let ke = choose|kk: int|
                                    0 <= kk < self.table.entries@.len() && (
                                    #[trigger] self.table.row(kk)).0 == non@
                                        && self.table.row(kk).1 == key@;
                                if ke != krow {
                                    if ke < krow {
                                        assert(!(self.table.row(ke).0 == self.table.row(
                                            krow,
                                        ).0 && self.table.row(ke).1 == self.table.row(krow).1));
                                    } else {
                                        assert(!(self.table.row(krow).0 == self.table.row(
                                            ke,
                                        ).0 && self.table.row(krow).1 == self.table.row(ke).1));
                                    }
                                    assert(false);
                                }
                                assert(table_at(self.table, non@, look_key(stoks, k as int))
                                    == Some(pi as int));
                            }
                            let hidden = non.as_str().unicode_len() > 0 && non.as_str().get_char(
                                0,
                            ) == '_';
                            proof {
                                assert(hidden == hidden_marked(non@));
                            }
                            if !hidden {
                                stack.push(StackObject::PopNode);
                                let ghost pre_nodes = node_stack@;
                                node_stack.push(AST::Node { name: non, children: Vec::new() });
                                proof {
                                    lemma_ast_views(pre_nodes);
                                    lemma_ast_views(node_stack@);
                                    assert(ast_views(node_stack@) =~= ast_views(
                                        pre_nodes,
                                    ).push(ast_view(node_stack@.last())));
                                    lemma_forest_leaves_snoc(
                                        ast_views(pre_nodes),
                                        ast_view(node_stack@.last()),
                                    );
                                    assert(ast_leaves(ast_view(node_stack@.last()))
                                        =~= Seq::<TokenModel>::empty());
                                    assert(forest_leaves(ast_views(node_stack@))
                                        =~= ast_token_views(toks@).take(k as int));
                                }
                            }
                            let ghost base_sv = stack_views(stack@);
                            let ghost rhsm = rules[pi as int].1;
                            proof {
                                if !hidden {
                                    assert(base_sv =~= st_head.stack.drop_last().push(
                                        StackModel::PopNode,
                                    ));
                                    assert(ast_views(node_stack@) =~= st_head.nodes.push(
                                        AstModel::Node { name: non@, children: Seq::empty() },
                                    ));
                                }
                                assert(rhsm.len() == self.grammar.rules@[pi as int].1@.len());
                            }
                            let rhs_len = self.grammar.rules[pi].1.len();
                            let mut ri: usize = rhs_len;
                            proof {
                                assert(rev_objs(rhsm, (rhs_len - ri) as nat)
                                    =~= Seq::<StackModel>::empty());
                                assert(stack_views(stack@) =~= base_sv.add(
                                    rev_objs(rhsm, (rhs_len - ri) as nat),
                                ));
                            }
                            while ri > 0
                                invariant
                                    rules == self.grammar@.rules,
                                    rhsm == rules[pi as int].1,
                                    pi < self.grammar.rules@.len(),
                                    ri <= rhs_len,
                                    rhs_len == self.grammar.rules@[pi as int].1@.len(),
                                    rhsm.len() == rhs_len,
                                    stack_views(stack@) == base_sv.add(
                                        rev_objs(rhsm, (rhs_len - ri) as nat),
                                    ),
                                decreases ri,
                            {
                                ri = ri - 1;
                                let obj = match &self.grammar.rules[pi].1[ri] {
                                    NT::Non(a) => StackObject::Nonterm(a.clone()),
                                    NT::Term(a) => StackObject::Term(a.clone()),
                                    NT::Epsilon => StackObject::Eps,
                                };
                                proof {
                                    assert(self.grammar.rules@[pi as int].1@[ri as int]@
                                        == rhsm[ri as int]);
                                    assert(obj@ == sym_obj(rhsm[ri as int]));
                                }
                                let ghost prev_v = stack_views(stack@);
                                stack.push(obj);
                                proof {
                                    assert(stack_views(stack@) =~= prev_v.push(obj@));
                                    assert(rev_objs(rhsm, (rhs_len - ri) as nat) =~= rev_objs(
                                        rhsm,
                                        (rhs_len - ri - 1) as nat,
                                    ).push(sym_obj(rhsm[ri as int])));
                                    assert(stack_views(stack@) =~= base_sv.add(
                                        rev_objs(rhsm, (rhs_len - ri) as nat),
                                    ));
                                }
                            }
                            proof {
                                reveal(drv_step);
                                reveal_with_fuel(drv_run, 2);
                                let pushed = rev_objs(rhsm, rhsm.len());
                                assert(rev_objs(rhsm, (rhs_len - 0) as nat) =~= pushed);
                                let st_new = DriveState {
                                    stack: stack_views(stack@),
                                    nodes: ast_views(node_stack@),
                                    consumed: k as int,
                                };
                                if hidden {
                                    assert(st_new.stack =~= st_head.stack.drop_last().add(
                                        pushed,
                                    ));
                                    assert(st_new.nodes =~= st_head.nodes);
                                } else {
                                    assert(st_new.stack =~= st_head.stack.drop_last().push(
                                        StackModel::PopNode,
                                    ).add(pushed));
                                    assert(st_new.nodes =~= st_head.nodes.push(
                                        AstModel::Node { name: non@, children: Seq::empty() },
                                    ));
                                }
                                assert(drv_step(rules, self.table, stoks, st_head)
                                    == Some(st_new));
                                assert(target == drv_run(
                                    rules,
                                    self.table,
                                    stoks,
                                    st_new,
                                    start,
                                    fuel as nat,
                                ));
                            }
                        },
                        None => {
                            proof {
                                reveal(drv_step);
                                reveal_with_fuel(drv_run, 2);
                                assert(key@ == look_key(stoks, k as int));
                                assert(table_at(self.table, non@, look_key(stoks, k as int))
                                    is None) by {
                                    if table_at(self.table, non@, look_key(stoks, k as int))
                                        is Some {
                                        let ke = choose|kk: int|
                                            0 <= kk < self.table.entries@.len() && (
                                            #[trigger] self.table.row(kk)).0 == non@
                                                && self.table.row(kk).1 == key@;
                                        assert(false);
                                    }
                                }
                                assert(drv_step(rules, self.table, stoks, st_head) is None);
                                assert(target == DriveOutcome::Reject);
                            }
                            let got = if k < toks.len() {
                                toks[k].clone()
                            } else {
                                Token {
                                    text: String::new(),
                                    is_end: true,
                                    line: end_line,
                                    column: end_col,
                                    str_pos: end_pos,
                                }
                            };
                            return Err(
                                ParseError::UnexpectedToken {
                                    expected: self.table.expected_lookaheads(&non),
                                    got,
                                },
                            );
                        },
                    }
                },
                StackObject::Term(term) => {
                    if k < toks.len() && toks[k].text.eq(&term) {
                        let la = toks[k].clone();
                        let ghost pre_stack = node_stack@;
                        let (nm, mut children) = match node_stack.pop() {
                            Some(AST::Node { name, children }) => (name, children),
                            Some(AST::Token(_)) => {
                                proof {
                                    reveal(drv_step);
                                    reveal_with_fuel(drv_run, 2);
                                    lemma_ast_views(pre_stack);
                                    assert(pre_stack.len() > 0);
                                    assert(ast_views(pre_stack).len() == pre_stack.len());
                                    assert(ast_views(pre_stack)[pre_stack.len() - 1]
                                        == ast_view(pre_stack[pre_stack.len() - 1]));
                                    assert(st_head.nodes.last() == ast_view(pre_stack.last()));
                                    assert(drv_step(rules, self.table, stoks, st_head) is None);
                                    assert(target == DriveOutcome::Reject);
                                }
                                return Err(ParseError::Internal);
                            },
                            None => {
                                proof {
                                    assert(false);
                                }
                                return Err(ParseError::Internal);
                            },
                        };
                        let ghost pre_children = children@;
                        let ghost nmv = nm@;
                        let ghost old_last = ast_view(pre_stack.last());
                        proof {
                            assert(old_last == AstModel::Node {
                                name: nmv,
                                children: ast_views(pre_children),
                            });
                            lemma_ast_views(pre_stack);
                            lemma_ast_views(node_stack@);
                            assert(node_stack@ =~= pre_stack.drop_last());
                            assert(ast_views(pre_stack) =~= ast_views(node_stack@).push(
                                old_last,
                            ));
                            lemma_forest_leaves_snoc(ast_views(node_stack@), old_last);
                        }
                        let ghost base_leaves = forest_leaves(ast_views(node_stack@));
                        let ghost base_stack = node_stack@;
                        children.push(AST::Token(la));
                        node_stack.push(AST::Node { name: nm, children });
                        k = k + 1;
                        proof {
                            let new_last = ast_view(node_stack@.last());
                            lemma_ast_views(children@);
                            lemma_ast_views(pre_children);
                            assert(ast_views(children@) =~= ast_views(pre_children).push(
                                AstModel::Tok(toks@[k - 1]@),
                            ));
                            lemma_forest_leaves_snoc(
                                ast_views(pre_children),
                                AstModel::Tok(toks@[k - 1]@),
                            );
                            assert(ast_leaves(new_last) =~= ast_leaves(old_last).push(
                                toks@[k - 1]@,
                            ));
                            lemma_ast_views(node_stack@);
                            lemma_ast_views(node_stack@.drop_last());
                            lemma_ast_views(pre_stack.drop_last());
                            assert(node_stack@.drop_last() =~= pre_stack.drop_last());
                            assert(ast_views(node_stack@) =~= ast_views(
                                node_stack@.drop_last(),
                            ).push(new_last));
                            lemma_forest_leaves_snoc(
                                ast_views(node_stack@.drop_last()),
                                new_last,
                            );
                            assert(node_stack@.drop_last() =~= base_stack);
                            assert(forest_leaves(ast_views(node_stack@)) =~= base_leaves.add(
                                ast_leaves(old_last),
                            ).push(toks@[k - 1]@));
                            assert(ast_token_views(toks@).take(k as int) =~= ast_token_views(
                                toks@,
                            ).take(k - 1).push(toks@[k - 1]@));
                            assert(forest_leaves(ast_views(node_stack@)) =~= ast_token_views(
                                toks@,
                            ).take(k as int));
                        }
                        proof {
                            reveal(drv_step);
                            reveal_with_fuel(drv_run, 2);
                            let st_new = DriveState {
                                stack: stack_views(stack@),
                                nodes: ast_views(node_stack@),
                                consumed: k as int,
                            };
                            assert(st_head.nodes.last() == old_last);
                            assert(stoks[k - 1].text == term@);
                            assert(st_new.stack =~= st_head.stack.drop_last());
                            assert(st_new.nodes =~= st_head.nodes.drop_last().push(
                                AstModel::Node {
                                    name: nmv,
                                    children: ast_views(pre_children).push(
                                        AstModel::Tok(stoks[k - 1]),
                                    ),
                                },
                            ));
                            assert(drv_step(rules, self.table, stoks, st_head) == Some(st_new));
                            assert(target == drv_run(
                                rules,
                                self.table,
                                stoks,
                                st_new,
                                start,
                                fuel as nat,
                            ));
                        }
                    } else {
                        proof {
                            reveal(drv_step);
                            reveal_with_fuel(drv_run, 2);
                            assert(drv_step(rules, self.table, stoks, st_head) is None);
                            assert(target == DriveOutcome::Reject);
                        }
                        let got = if k < toks.len() {
                            toks[k].clone()
                        } else {
                            Token {
                                text: String::new(),
                                is_end: true,
                                line: end_line,
                                column: end_col,
                                str_pos: end_pos,
                            }
                        };
                        return Err(ParseError::ExpectedTerminal { expected: term, got });
                    }
                },
                StackObject::Eps => {
                    proof {
                        reveal(drv_step);
                        reveal_with_fuel(drv_run, 2);
                        let st_new = DriveState {
                            stack: stack_views(stack@),
                            nodes: ast_views(node_stack@),
                            consumed: k as int,
                        };
                        assert(drv_step(rules, self.table, stoks, st_head) == Some(st_new));
                        assert(target == drv_run(
                            rules,
                            self.table,
                            stoks,
                            st_new,
                            start,
                            fuel as nat,
                        ));
                    }
                },
                StackObject::PopNode => {
                    let ghost pre_stack = node_stack@;
                    let done = match node_stack.pop() {
                        Some(n) => n,
                        None => {
                            proof {
                                assert(false);
                            }
                            return Err(ParseError::Internal);
                        },
                    };
                    let ghost mid_stack = node_stack@;
                    let (nm, mut children) = match node_stack.pop() {
                        Some(AST::Node { name, children }) => (name, children),
                        Some(AST::Token(_)) => {
                            proof {
                                reveal(drv_step);
                                reveal_with_fuel(drv_run, 2);
                                lemma_ast_views(pre_stack);
                                lemma_ast_views(mid_stack);
                                assert(mid_stack =~= pre_stack.drop_last());
                                assert(mid_stack.len() > 0);
                                assert(st_head.nodes.len() >= 2);
                                assert(st_head.nodes.drop_last() =~= ast_views(mid_stack));
                                assert(ast_views(mid_stack)[mid_stack.len() - 1]
                                    == ast_view(mid_stack[mid_stack.len() - 1]));
                                assert(st_head.nodes.drop_last().last() == ast_view(
                                    mid_stack.last(),
                                ));
                                assert(drv_step(rules, self.table, stoks, st_head) is None);
                                assert(target == DriveOutcome::Reject);
                            }
                            return Err(ParseError::Internal);
                        },
                        None => {
                            proof {
                                reveal(drv_step);
                                reveal_with_fuel(drv_run, 2);
                                lemma_ast_views(pre_stack);
                                assert(pre_stack.len() == 1);
                                assert(st_head.nodes.len() == 1);
                                assert(drv_step(rules, self.table, stoks, st_head) is None);
                                assert(target == DriveOutcome::Reject);
                            }
                            return Err(ParseError::Internal);
                        },
                    };
                    let ghost pre_children = children@;
                    let ghost nmv = nm@;
                    let ghost done_model = ast_view(done);
                    let ghost parent_model = ast_view(mid_stack.last());
                    proof {
                        assert(parent_model == AstModel::Node {
                            name: nmv,
                            children: ast_views(pre_children),
                        });
                        lemma_ast_views(pre_stack);
                        lemma_ast_views(mid_stack);
                        lemma_ast_views(node_stack@);
                        assert(mid_stack =~= pre_stack.drop_last());
                        assert(node_stack@ =~= mid_stack.drop_last());
                        assert(ast_views(pre_stack) =~= ast_views(mid_stack).push(done_model));
                        assert(ast_views(mid_stack) =~= ast_views(node_stack@).push(
                            parent_model,
                        ));
                        lemma_forest_leaves_snoc(ast_views(mid_stack), done_model);
                        lemma_forest_leaves_snoc(ast_views(node_stack@), parent_model);
                    }
                    let ghost base_leaves = forest_leaves(ast_views(node_stack@));
                    let ghost base_stack = node_stack@;
                    children.push(done);
                    node_stack.push(AST::Node { name: nm, children });
                    proof {
                        let new_last = ast_view(node_stack@.last());
                        lemma_ast_views(children@);
                        lemma_ast_views(pre_children);
                        assert(ast_views(children@) =~= ast_views(pre_children).push(
                            done_model,
                        ));
                        lemma_forest_leaves_snoc(ast_views(pre_children), done_model);
                        assert(ast_leaves(new_last) =~= ast_leaves(parent_model).add(
                            ast_leaves(done_model),
                        ));
                        lemma_ast_views(node_stack@);
                        lemma_ast_views(node_stack@.drop_last());
                        assert(node_stack@.drop_last() =~= base_stack);
                        assert(ast_views(node_stack@) =~= ast_views(
                            node_stack@.drop_last(),
                        ).push(new_last));
                        lemma_forest_leaves_snoc(
                            ast_views(node_stack@.drop_last()),
                            new_last,
                        );
                        assert(forest_leaves(ast_views(node_stack@)) =~= base_leaves.add(
                            ast_leaves(parent_model),
                        ).add(ast_leaves(done_model)));
                        assert(forest_leaves(ast_views(pre_stack)) =~= base_leaves.add(
                            ast_leaves(parent_model),
                        ).add(ast_leaves(done_model)));
                        assert(forest_leaves(ast_views(node_stack@)) =~= ast_token_views(
                            toks@,
                        ).take(k as int));
                    }
                    proof {
                        reveal(drv_step);
                        reveal_with_fuel(drv_run, 2);
                        let st_new = DriveState {
                            stack: stack_views(stack@),
                            nodes: ast_views(node_stack@),
                            consumed: k as int,
                        };
                        assert(st_head.nodes.len() >= 2);
                        assert(st_head.nodes.last() == done_model);
                        assert(st_head.nodes.drop_last() =~= ast_views(mid_stack));
                        assert(st_head.nodes.drop_last().last() == parent_model);
                        assert(st_new.stack =~= st_head.stack.drop_last());
                        assert(st_new.nodes =~= st_head.nodes.drop_last().drop_last().push(
                            AstModel::Node {
                                name: nmv,
                                children: ast_views(pre_children).push(done_model),
                            },
                        ));
                        assert(drv_step(rules, self.table, stoks, st_head) == Some(st_new));
                        assert(target == drv_run(
                            rules,
                            self.table,
                            stoks,
                            st_new,
                            start,
                            fuel as nat,
                        ));
                    }
                },
            }
        }
        let ghost st_end = DriveState {
            stack: stack_views(stack@),
            nodes: ast_views(node_stack@),
            consumed: k as int,
        };
        proof {
            assert(st_end.stack.len() == 0);
            assert(target == drv_run(rules, self.table, stoks, st_end, start, fuel as nat));
        }
        if k < toks.len() {
            proof {
                reveal_with_fuel(drv_run, 2);
                assert(target == DriveOutcome::Reject);
            }
            return Err(ParseError::TrailingInput { at: toks[k].clone() });
        }
        if node_stack.len() != 1 {
            proof {
                reveal_with_fuel(drv_run, 2);
                assert(target == DriveOutcome::Reject);
            }
            return Err(ParseError::Internal);
        }
        proof {
            lemma_ast_views(node_stack@);
            assert(st_end.nodes[0] == ast_view(node_stack@[0]));
        }
        let root = match node_stack.pop() {
            Some(r) => r,
            None => {
                return Err(ParseError::Internal);
            },
        };
        let ghost root_model = ast_view(root);
        proof {
            assert(st_end.nodes[0] == root_model);
        }
        let (root_children,) = match root {
            AST::Node { name: _, children } => (children,),
            AST::Token(_) => {
                proof {
                    reveal_with_fuel(drv_run, 2);
                    assert(target == DriveOutcome::Reject);
                }
                return Err(ParseError::Internal);
            },
        };
        let ghost rc = root_children@;
        proof {
            lemma_ast_views(rc);
            assert(root_model matches AstModel::Node { name: _, children: c }
                && c == ast_views(rc));
        }
        if root_children.len() != 1 {
            proof {
                reveal_with_fuel(drv_run, 2);
                assert(ast_views(rc).len() != 1);
                assert(target == DriveOutcome::Reject);
            }
            return Err(ParseError::Internal);
        }
        let mut root_children = root_children;
        let child = match root_children.pop() {
            Some(c) => c,
            None => {
                return Err(ParseError::Internal);
            },
        };
        proof {
            assert(rc[0] == child);
            assert(ast_views(rc)[0] == ast_view(child));
        }
        if !check_visible(&child) {
            proof {
                reveal_with_fuel(drv_run, 2);
                assert(target == DriveOutcome::Reject);
            }
            return Err(ParseError::Internal);
        }
        let root_is_start = match &child {
            AST::Node { name, .. } => name.eq(&self.grammar.start_nonterm),
            AST::Token(_) => false,
        };
        if !root_is_start {
            proof {
                reveal_with_fuel(drv_run, 2);
                assert(target == DriveOutcome::Reject);
            }
            return Err(ParseError::Internal);
        }
        proof {
            reveal_with_fuel(drv_run, 2);
            assert(target == DriveOutcome::Accept(ast_view(child)));
        }
        proof {
            reveal_with_fuel(forest_leaves, 3);
            reveal_with_fuel(ast_views, 3);
            lemma_ast_views(rc);
            assert(ast_token_views(toks@).take(toks@.len() as int) =~= ast_token_views(toks@));
            assert(ast_views(rc).len() == 1);
            assert(rc[0] == child);
            assert(ast_views(rc).first() == ast_view(child));
            assert(ast_views(rc).drop_first() =~= Seq::<AstModel>::empty());
            assert(forest_leaves(ast_views(rc)) =~= ast_leaves(ast_view(child)));
            assert(ast_leaves(ast_view(child)) =~= stoks);
            assert(ast_view(child) matches AstModel::Node { name, children: _ }
                && name == self.grammar@.start);
        }
        Ok(child)
    }
}

/// Build a parser from a normalised grammar.
///
/// Succeeds exactly when the table builder succeeds: no two productions
/// of one nonterminal claim the same lookahead.  A conflict is reported
/// with the nonterminal, the lookahead and both production indices; the
/// internal error marks a violated invariant and should be unreachable.
pub fn get_parser(grammar: GrammarChomsky) -> (r: Result<Parser, GrammarError>)
    ensures
        match r {
            Ok(p) => {
                &&& p.wf()
                &&& p.grammar == grammar
                &&& terms_view(p.terminals@).to_set() == term_lit_set(grammar@.rules)
            },
            Err(e) => {
                &&& e is Conflict
                &&& e matches GrammarError::Conflict {
                    nonterminal,
                    lookahead,
                    first_production,
                    second_production,
                } ==> {
                    &&& 0 <= first_production < second_production < grammar@.rules.len()
                    &&& grammar@.rules[first_production as int].0 == nonterminal@
                    &&& grammar@.rules[second_production as int].0 == nonterminal@
                    &&& exists|
                        pf: Seq<Set<Seq<char>>>,
                        m: Map<Seq<char>, Set<Seq<char>>>,
                        fm: Map<Seq<char>, Set<Seq<char>>>,
                    |
                        {
                            &&& #[trigger] canonical_tables(grammar@.rules, grammar@.start, pf,
                                m, fm)
                            &&& entry_lits(grammar@.rules, pf, fm,
                                first_production as int).contains(lookahead@)
                            &&& entry_lits(grammar@.rules, pf, fm,
                                second_production as int).contains(lookahead@)
                            &&& !ll1_ok(grammar@.rules, pf, fm)
                        }
                }
            },
        },
{
    let (table, w) = match gen_parsetable(&grammar) {
        Ok(p) => p,
        Err(e) => {
            return Err(e);
        },
    };
    let terminals = grammar.terminals();
    Ok(Parser { grammar, table, terminals, tables_model: w })
}

/// In the FIRST fixed point, each nonterminal's set is exactly the union
/// of the per-production sets of its productions.
pub proof fn lemma_first_is_union(
    rules: Seq<(Seq<char>, Seq<SymModel>)>,
    pf: Seq<Set<Seq<char>>>,
    m: Map<Seq<char>, Set<Seq<char>>>,
    n: Seq<char>,
)
    requires
        first_tables_ok(rules, pf, m),
        lhs_set(rules).contains(n),
    ensures
        m[n] == Set::new(
            |x: Seq<char>|
                exists|i: int| 0 <= i < rules.len() && rules[i].0 == n && (#[trigger] pf[i]).contains(x),
        ),
{
    let u = Set::new(
        |x: Seq<char>|
            exists|i: int| 0 <= i < rules.len() && rules[i].0 == n && (#[trigger] pf[i]).contains(x),
    );
    assert(m.dom().contains(n));
    assert forall|x: Seq<char>| m[n].contains(x) implies u.contains(x) by {
        let i = choose|i: int|
            0 <= i < rules.len() && rules[i].0 == n && (#[trigger] pf[i]).contains(x);
        assert(pf[i].contains(x));
    }
    assert forall|x: Seq<char>| u.contains(x) implies m[n].contains(x) by {
        let i = choose|i: int|
            0 <= i < rules.len() && rules[i].0 == n && (#[trigger] pf[i]).contains(x);
        assert(pf[i].subset_of(m[rules[i].0]));
    }
    assert(m[n] =~= u);
}

/// The FOLLOW table of a generated parser is seeded: the start symbol's
/// set holds the end-of-input marker, so a nullable start symbol still
/// has a nonempty FOLLOW set.
pub proof fn lemma_follow_start_nonempty(p: Parser)
    requires
        p.wf(),
    ensures
        p.tables_model@.2.dom().contains(p.grammar@.start),
        p.tables_model@.2[p.grammar@.start].contains(eps()),
        p.tables_model@.2[p.grammar@.start] != Set::<Seq<char>>::empty(),
{
    let fm = p.tables_model@.2;
    assert(fm[p.grammar@.start].contains(eps()));
    assert(!Set::<Seq<char>>::empty().contains(eps()));
}

/// FOLLOW sets accumulate: a nonterminal standing in the rightmost
/// nullable tail of a production whose left-hand side has a nonempty
/// FOLLOW set has a nonempty FOLLOW set itself.  Together with the seeded
/// start symbol this is how a nullable nonterminal that is reachable from
/// the start symbol ends up with a nonempty FOLLOW set.
pub proof fn lemma_follow_accumulates(p: Parser, i: int, nm: Seq<char>)
    requires
        p.wf(),
        0 <= i < p.grammar@.rules.len(),
        tailset(
            p.grammar@.rules[i].1,
            p.grammar@.rules[i].1.len() as int,
            p.tables_model@.1,
        ).contains(nm),
        follow_at(p.tables_model@.2, p.grammar@.rules[i].0) != Set::<Seq<char>>::empty(),
    ensures
        follow_at(p.tables_model@.2, nm) != Set::<Seq<char>>::empty(),
{
    let rules = p.grammar@.rules;
    let m = p.tables_model@.1;
    let fm = p.tables_model@.2;
    let lhs = rules[i].0;
    assert(follow_closed(rules, m, fm));
    assert(follow_prod_closed(rules[i].0, rules[i].1, m, fm));
    if follow_at(fm, lhs) =~= Set::<Seq<char>>::empty() {
    } else {
        let x = choose|x: Seq<char>| follow_at(fm, lhs).contains(x);
        assert(follow_at(fm, nm).contains(x));
        assert(follow_at(fm, nm) != Set::<Seq<char>>::empty());
    }
}

/// In a well-formed normalised grammar every nonterminal referenced on a
/// right-hand side resolves to some production's left-hand side.
pub proof fn lemma_references_resolve(g: GrammarChomsky, i: int, j: int, nm: Seq<char>)
    requires
        g.wf(),
        0 <= i < g@.rules.len(),
        0 <= j < g@.rules[i].1.len(),
        g@.rules[i].1[j] == SymModel::Non(nm),
    ensures
        lhs_set(g@.rules).contains(nm),
        exists|k: int| 0 <= k < g@.rules.len() && (#[trigger] g@.rules[k]).0 == nm,
{
    assert(rhs_non_set(g@.rules).contains(nm));
    assert(lhs_set(g@.rules).contains(nm));
    let k = choose|k: int| 0 <= k < g@.rules.len() && (#[trigger] g@.rules[k]).0 == nm;
    assert(g@.rules[k].0 == nm);
}

} // verus!
