//! Small verified set and map types over string keys.
//!
//! FIRST, FOLLOW and the parse table are maps and sets of terminal literals
//! and nonterminal names.  They are kept as vectors of distinct entries; the
//! abstract value of a set is a `Set<Seq<char>>` and that of a map is a
//! `Map` from key characters to the value's abstraction.

use vstd::prelude::*;
use vstd::set_lib::lemma_len_subset;

verus! {

/// Appending an element to a sequence inserts it into the corresponding set.
pub proof fn lemma_to_set_push(s: Seq<Seq<char>>, x: Seq<char>)
    ensures
        s.push(x).to_set() == s.to_set().insert(x),
{
    assert forall|a: Seq<char>| s.push(x).to_set().contains(a) implies s.to_set().insert(
        x,
    ).contains(a) by {
        let i = choose|i: int| 0 <= i < s.push(x).len() && s.push(x)[i] == a;
        if i < s.len() {
            assert(s[i] == a);
        }
    }
    assert forall|a: Seq<char>| s.to_set().insert(x).contains(a) implies s.push(
        x,
    ).to_set().contains(a) by {
        if a == x {
            assert(s.push(x)[s.len() as int] == a);
        } else {
            let i = choose|i: int| 0 <= i < s.len() && s[i] == a;
            assert(s.push(x)[i] == a);
        }
    }
    assert(s.push(x).to_set() =~= s.to_set().insert(x));
}

/// A set of literals (terminal strings or nonterminal names), kept as a
/// vector of distinct strings in insertion order.
pub struct LitSet {
    items: Vec<String>,
}

impl LitSet {
    /// The members in insertion order.
    pub closed spec fn lits(&self) -> Seq<Seq<char>> {
        self.items@.map_values(|s: String| s@)
    }

    /// The abstract set of members.
    pub open spec fn set(&self) -> Set<Seq<char>> {
        self.lits().to_set()
    }

    /// Members are distinct.
    pub open spec fn wf(&self) -> bool {
        self.lits().no_duplicates()
    }

    pub proof fn lemma_card(&self)
        requires
            self.wf(),
        ensures
            self.set().finite(),
            self.set().len() == self.lits().len(),
    {
        self.lits().unique_seq_to_set();
    }

    pub fn new() -> (r: LitSet)
        ensures
            r.wf(),
            r.set() == Set::<Seq<char>>::empty(),
            r.lits() == Seq::<Seq<char>>::empty(),
    {
        let r = LitSet { items: Vec::new() };
        proof {
            assert(r.lits() =~= Seq::<Seq<char>>::empty());
            assert(r.set() =~= Set::<Seq<char>>::empty());
        }
        r
    }

    pub fn len(&self) -> (n: usize)
        ensures
            n == self.lits().len(),
    {
        self.items.len()
    }

    /// The `i`-th member, in insertion order.
    pub fn index(&self, i: usize) -> (r: &String)
        requires
            i < self.lits().len(),
        ensures
            r@ == self.lits()[i as int],
            self.set().contains(r@),
    {
        let r = &self.items[i];
        proof {
            assert(self.lits()[i as int] == r@);
        }
        r
    }

    pub fn contains_lit(&self, x: &String) -> (b: bool)
        ensures
            b == self.set().contains(x@),
    {
        let n = self.items.len();
        let mut i: usize = 0;
        while i < n
            invariant
                n == self.lits().len(),
                i <= n,
                forall|j: int| 0 <= j < i ==> self.lits()[j] != x@,
            decreases n - i,
        {
            if self.items[i].eq(x) {
                proof {
                    assert(self.lits()[i as int] == x@);
                }
                return true;
            }
            i += 1;
        }
        proof {
            if self.set().contains(x@) {
                let j = choose|j: int| 0 <= j < self.lits().len() && self.lits()[j] == x@;
                assert(self.lits()[j] == x@);
            }
        }
        false
    }

    /// Add a literal; reports whether the set grew.
    pub fn insert_lit(&mut self, x: &String) -> (added: bool)
        requires
            old(self).wf(),
        ensures
            final(self).wf(),
            final(self).set() == old(self).set().insert(x@),
            added == !old(self).set().contains(x@),
            added ==> final(self).lits() == old(self).lits().push(x@),
            !added ==> final(self).lits() == old(self).lits(),
    {
        if self.contains_lit(x) {
            proof {
                assert(final(self).set() =~= old(self).set().insert(x@));
            }
            return false;
        }
        let ghost prev = self.lits();
        self.items.push(x.clone());
        proof {
            assert(self.lits() =~= prev.push(x@));
            lemma_to_set_push(prev, x@);
        }
        true
    }

    /// Add every member of `o`; reports whether the set grew.
    pub fn union_from(&mut self, o: &LitSet) -> (added: bool)
        requires
            old(self).wf(),
        ensures
            final(self).wf(),
            final(self).set() == old(self).set().union(o.set()),
            added == !o.set().subset_of(old(self).set()),
    {
        let n = o.items.len();
        let mut i: usize = 0;
        let mut added = false;
        while i < n
            invariant
                old(self).wf(),
                self.wf(),
                n == o.lits().len(),
                i <= n,
                self.set() == old(self).set().union(o.lits().take(i as int).to_set()),
                added == !o.lits().take(i as int).to_set().subset_of(old(self).set()),
            decreases n - i,
        {
            let ghost pre = self.set();
            let x = o.index(i);
            let a = self.insert_lit(x);
            proof {
                assert(o.lits().take(i + 1) =~= o.lits().take(i as int).push(o.lits()[i as int]));
                lemma_to_set_push(o.lits().take(i as int), o.lits()[i as int]);
                assert(self.set() =~= old(self).set().union(o.lits().take(i + 1).to_set()));
            }
            added = added || a;
            i += 1;
        }
        proof {
            assert(o.lits().take(n as int) =~= o.lits());
        }
        added
    }

    /// Give up the set, handing out its members in insertion order.
    pub fn into_items(self) -> (v: Vec<String>)
        ensures
            v@.map_values(|s: String| s@) == self.lits(),
    {
        self.items
    }

    /// Clone the set.
    pub fn duplicate(&self) -> (r: LitSet)
        ensures
            r.lits() == self.lits(),
            r.set() == self.set(),
            r.wf() == self.wf(),
    {
        let n = self.items.len();
        let mut items: Vec<String> = Vec::new();
        let mut i: usize = 0;
        while i < n
            invariant
                n == self.items@.len(),
                i <= n,
                items@.len() == i,
                forall|j: int| 0 <= j < i ==> items@[j]@ == self.items@[j]@,
            decreases n - i,
        {
            items.push(self.items[i].clone());
            i += 1;
        }
        let r = LitSet { items };
        proof {
            assert(r.lits() =~= self.lits());
        }
        r
    }
}

/// Sum of the sizes of a sequence of literal sets.
pub open spec fn sum_sizes(s: Seq<LitSet>) -> nat
    decreases s.len(),
{
    if s.len() == 0 {
        0
    } else {
        sum_sizes(s.drop_last()) + s.last().lits().len()
    }
}

/// A sequence of empty sets sums to zero.
pub proof fn lemma_sum_sizes_zero(s: Seq<LitSet>)
    requires
        forall|i: int| 0 <= i < s.len() ==> (#[trigger] s[i]).lits().len() == 0,
    ensures
        sum_sizes(s) == 0,
    decreases s.len(),
{
    if s.len() > 0 {
        lemma_sum_sizes_zero(s.drop_last());
        assert(s.last() == s[s.len() - 1]);
    }
}

/// Replacing one set in a sequence changes the sum by the size difference.
pub proof fn lemma_sum_sizes_update(s: Seq<LitSet>, i: int, v: LitSet)
    requires
        0 <= i < s.len(),
    ensures
        sum_sizes(s.update(i, v)) + s[i].lits().len() == sum_sizes(s) + v.lits().len(),
    decreases s.len(),
{
    if i == s.len() - 1 {
        assert(s.update(i, v).drop_last() =~= s.drop_last());
    } else {
        assert(s.update(i, v).drop_last() =~= s.drop_last().update(i, v));
        lemma_sum_sizes_update(s.drop_last(), i, v);
    }
}

/// Appending a set adds its size to the sum.
pub proof fn lemma_sum_sizes_push(s: Seq<LitSet>, v: LitSet)
    ensures
        sum_sizes(s.push(v)) == sum_sizes(s) + v.lits().len(),
{
    assert(s.push(v).drop_last() =~= s);
}

/// If every set is well formed and a subset of a finite set `a`, the sum is
/// bounded by `s.len()` times the size of `a`.
pub proof fn lemma_sum_sizes_bound(s: Seq<LitSet>, a: Set<Seq<char>>)
    requires
        a.finite(),
        forall|i: int| 0 <= i < s.len() ==> (#[trigger] s[i]).wf() && s[i].set().subset_of(a),
    ensures
        sum_sizes(s) <= s.len() * a.len(),
    decreases s.len(),
{
    if s.len() > 0 {
        lemma_sum_sizes_bound(s.drop_last(), a);
        assert(s.last() == s[s.len() - 1]);
        s.last().lemma_card();
        lemma_len_subset(s.last().set(), a);
        assert((s.len() - 1) * a.len() + a.len() == s.len() * a.len()) by (nonlinear_arith);
    }
}

/// A map from names to literal sets, kept as parallel vectors with distinct
/// keys in insertion order.
pub struct SetMap {
    keys: Vec<String>,
    vals: Vec<LitSet>,
}

impl SetMap {
    /// The keys in insertion order.
    pub closed spec fn key_seq(&self) -> Seq<Seq<char>> {
        self.keys@.map_values(|s: String| s@)
    }

    /// The values in insertion order.
    pub closed spec fn val_seq(&self) -> Seq<LitSet> {
        self.vals@
    }

    pub open spec fn wf(&self) -> bool {
        &&& self.key_seq().no_duplicates()
        &&& self.key_seq().len() == self.val_seq().len()
        &&& forall|i: int| 0 <= i < self.val_seq().len() ==> (#[trigger] self.val_seq()[i]).wf()
    }

    /// The abstract map from key characters to member sets.
    pub open spec fn map(&self) -> Map<Seq<char>, Set<Seq<char>>> {
        Map::new(
            |k: Seq<char>| self.key_seq().contains(k),
            |k: Seq<char>| self.val_seq()[self.key_seq().index_of(k)].set(),
        )
    }

    /// Total size of all member sets, the measure that fixed-point
    /// iteration increases.
    pub open spec fn total(&self) -> nat {
        sum_sizes(self.val_seq())
    }

    /// Binding a fresh key to the empty set appends one entry.
    proof fn lemma_map_push(pre: Self, post: Self, k: Seq<char>, nv: LitSet)
        requires
            pre.wf(),
            pre.key_seq().len() == pre.val_seq().len(),
            !pre.key_seq().contains(k),
            post.key_seq() == pre.key_seq().push(k),
            post.val_seq() == pre.val_seq().push(nv),
        ensures
            post.wf() == (forall|i: int|
                0 <= i < post.val_seq().len() ==> (#[trigger] post.val_seq()[i]).wf()),
            post.map() == pre.map().insert(k, nv.set()),
            post.map().dom() == pre.map().dom().insert(k),
    {
        let n = pre.key_seq().len() as int;
        assert(post.key_seq().no_duplicates()) by {
            assert forall|i: int, j: int|
                0 <= i < j < post.key_seq().len() implies post.key_seq()[i]
                != post.key_seq()[j] by {
                if j < n {
                } else {
                    assert(pre.key_seq()[i] == post.key_seq()[i]);
                }
            }
        }
        assert forall|k2: Seq<char>|
            post.key_seq().contains(k2) implies k2 == k || pre.key_seq().contains(k2) by {
            let i = choose|i: int|
                0 <= i < post.key_seq().len() && post.key_seq()[i] == k2;
            if i < n {
                assert(pre.key_seq()[i] == k2);
            }
        }
        assert forall|k2: Seq<char>|
            k2 == k || pre.key_seq().contains(k2) implies post.key_seq().contains(k2) by {
            if k2 == k {
                assert(post.key_seq()[n] == k2);
            } else {
                let i = choose|i: int|
                    0 <= i < pre.key_seq().len() && pre.key_seq()[i] == k2;
                assert(post.key_seq()[i] == k2);
            }
        }
        assert(post.map().dom() =~= pre.map().dom().insert(k));
        assert forall|k2: Seq<char>| post.map().dom().contains(k2) implies post.map()[k2]
            == pre.map().insert(k, nv.set())[k2] by {
            let j = post.key_seq().index_of(k2);
            assert(post.key_seq()[j] == k2);
            if k2 == k {
                if j < n {
                    assert(pre.key_seq()[j] == k2);
                    assert(false);
                }
                assert(post.map()[k2] == nv.set());
            } else {
                assert(j < n);
                assert(pre.key_seq()[j] == k2);
                let j2 = pre.key_seq().index_of(k2);
                assert(pre.key_seq()[j2] == k2);
                assert(j == j2);
            }
        }
        assert(post.map() =~= pre.map().insert(k, nv.set()));
    }

    /// Replacing the value at one position updates the map at its key.
    proof fn lemma_map_update(pre: Self, post: Self, i: int)
        requires
            pre.wf(),
            post.key_seq() == pre.key_seq(),
            0 <= i < pre.val_seq().len(),
            post.val_seq() == pre.val_seq().update(i, post.val_seq()[i]),
        ensures
            post.wf() == (forall|j: int|
                0 <= j < post.val_seq().len() ==> (#[trigger] post.val_seq()[j]).wf()),
            post.map() == pre.map().insert(pre.key_seq()[i], post.val_seq()[i].set()),
            post.map().dom() == pre.map().dom(),
    {
        let k = pre.key_seq()[i];
        assert(pre.key_seq().contains(k));
        assert(post.map().dom() =~= pre.map().dom().insert(k));
        assert(post.map().dom() =~= pre.map().dom());
        assert forall|k2: Seq<char>| post.map().dom().contains(k2) implies post.map()[k2]
            == pre.map().insert(k, post.val_seq()[i].set())[k2] by {
            let j = post.key_seq().index_of(k2);
            assert(post.key_seq()[j] == k2);
            if k2 == k {
                assert(j == i);
            } else {
                assert(j != i);
                assert(post.val_seq()[j] == pre.val_seq()[j]);
            }
        }
        assert(post.map() =~= pre.map().insert(k, post.val_seq()[i].set()));
    }

    pub proof fn lemma_val_at(&self, i: int)
        requires
            self.wf(),
            0 <= i < self.key_seq().len(),
        ensures
            self.map().dom().contains(self.key_seq()[i]),
            self.map()[self.key_seq()[i]] == self.val_seq()[i].set(),
    {
        let k = self.key_seq()[i];
        assert(self.key_seq().contains(k));
        let j = self.key_seq().index_of(k);
        assert(self.key_seq()[j] == k);
        assert(j == i);
    }

    pub fn new() -> (r: SetMap)
        ensures
            r.wf(),
            r.map() == Map::<Seq<char>, Set<Seq<char>>>::empty(),
            r.key_seq() == Seq::<Seq<char>>::empty(),
            r.total() == 0,
    {
        let r = SetMap { keys: Vec::new(), vals: Vec::new() };
        proof {
            assert(r.key_seq() =~= Seq::<Seq<char>>::empty());
            assert(r.map() =~= Map::<Seq<char>, Set<Seq<char>>>::empty());
        }
        r
    }

    pub fn len(&self) -> (n: usize)
        requires
            self.wf(),
        ensures
            n == self.key_seq().len(),
    {
        self.keys.len()
    }

    pub fn key_at(&self, i: usize) -> (r: &String)
        requires
            self.wf(),
            i < self.key_seq().len(),
        ensures
            r@ == self.key_seq()[i as int],
            self.map().dom().contains(r@),
    {
        proof {
            self.lemma_val_at(i as int);
        }
        &self.keys[i]
    }

    pub fn val_at(&self, i: usize) -> (r: &LitSet)
        requires
            self.wf(),
            i < self.key_seq().len(),
        ensures
            r.wf(),
            r.set() == self.map()[self.key_seq()[i as int]],
            r == self.val_seq()[i as int],
    {
        proof {
            self.lemma_val_at(i as int);
        }
        &self.vals[i]
    }

    fn find(&self, k: &String) -> (r: Option<usize>)
        requires
            self.wf(),
        ensures
            match r {
                Some(i) => i < self.key_seq().len() && self.key_seq()[i as int] == k@,
                None => !self.map().dom().contains(k@),
            },
    {
        let n = self.keys.len();
        let mut i: usize = 0;
        while i < n
            invariant
                self.wf(),
                n == self.key_seq().len(),
                i <= n,
                forall|j: int| 0 <= j < i ==> self.key_seq()[j] != k@,
            decreases n - i,
        {
            if self.keys[i].eq(k) {
                proof {
                    assert(self.key_seq()[i as int] == k@);
                }
                return Some(i);
            }
            i += 1;
        }
        proof {
            if self.key_seq().contains(k@) {
                let j = choose|j: int|
                    0 <= j < self.key_seq().len() && self.key_seq()[j] == k@;
                assert(self.key_seq()[j] == k@);
            }
        }
        None
    }

    pub fn get(&self, k: &String) -> (r: Option<&LitSet>)
        requires
            self.wf(),
        ensures
            match r {
                Some(v) => {
                    &&& self.map().dom().contains(k@)
                    &&& v.set() == self.map()[k@]
                    &&& v.wf()
                },
                None => !self.map().dom().contains(k@),
            },
    {
        match self.find(k) {
            Some(i) => {
                proof {
                    self.lemma_val_at(i as int);
                }
                Some(&self.vals[i])
            },
            None => None,
        }
    }

    /// The value bound to `k`, or the empty set where `k` is unbound.
    pub open spec fn val_or_empty(&self, k: Seq<char>) -> Set<Seq<char>> {
        if self.map().dom().contains(k) {
            self.map()[k]
        } else {
            Set::empty()
        }
    }

    /// Make sure `k` has an entry, empty where it had none, and return its
    /// position.
    fn ensure_key(&mut self, k: &String) -> (i: usize)
        requires
            old(self).wf(),
        ensures
            final(self).wf(),
            i < final(self).key_seq().len(),
            final(self).key_seq()[i as int] == k@,
            final(self).map() == old(self).map().insert(k@, old(self).val_or_empty(k@)),
            final(self).total() == old(self).total(),
            final(self).map().dom() == old(self).map().dom().insert(k@),
            old(self).map().dom().contains(k@) ==> *final(self) == *old(self),
            final(self).key_seq().len() == old(self).key_seq().len() + (
            if old(self).map().dom().contains(k@) {
                0int
            } else {
                1int
            }),
    {
        proof {
            assert(old(self).map().dom() =~= old(self).key_seq().to_set());
        }
        match self.find(k) {
            Some(i) => {
                proof {
                    self.lemma_val_at(i as int);
                    assert(final(self).map() =~= old(self).map().insert(
                        k@,
                        old(self).val_or_empty(k@),
                    ));
                    assert(final(self).map().dom() =~= old(self).map().dom().insert(k@));
                }
                i
            },
            None => {
                let i = self.keys.len();
                let ghost kprev = self.key_seq();
                let ghost vprev = self.val_seq();
                let nv = LitSet::new();
                self.keys.push(k.clone());
                self.vals.push(nv);
                proof {
                    assert(self.key_seq() =~= kprev.push(k@));
                    assert(self.val_seq() =~= vprev.push(nv));
                    lemma_sum_sizes_push(vprev, nv);
                    Self::lemma_map_push(*old(self), *self, k@, nv);
                    assert(old(self).val_or_empty(k@) =~= nv.set());
                }
                i
            },
        }
    }

    /// Add one literal to the set bound to `k`, creating the entry first
    /// where needed; reports whether the set grew.
    pub fn insert_into(&mut self, k: &String, x: &String) -> (added: bool)
        requires
            old(self).wf(),
        ensures
            final(self).wf(),
            final(self).map() == old(self).map().insert(
                k@,
                old(self).val_or_empty(k@).insert(x@),
            ),
            added == !old(self).val_or_empty(k@).contains(x@),
            final(self).map().dom() == old(self).map().dom().insert(k@),
            added ==> final(self).total() == old(self).total() + 1,
            !added ==> final(self).total() == old(self).total(),
            final(self).key_seq().len() == old(self).key_seq().len() + (
            if old(self).map().dom().contains(k@) {
                0int
            } else {
                1int
            }),
    {
        let i = self.ensure_key(k);
        let ghost mid = *self;
        let ghost vseq = self.val_seq();
        let added = self.vals[i].insert_lit(x);
        proof {
            assert(self.val_seq() =~= vseq.update(i as int, self.val_seq()[i as int]));
            lemma_sum_sizes_update(vseq, i as int, self.val_seq()[i as int]);
            mid.lemma_val_at(i as int);
            Self::lemma_map_update(mid, *self, i as int);
            assert(self.map() =~= old(self).map().insert(
                k@,
                old(self).val_or_empty(k@).insert(x@),
            ));
            assert(self.map().dom() =~= old(self).map().dom().insert(k@));
        }
        added
    }

    /// Add every member of `o` to the set bound to `k`, creating the entry
    /// first where needed; reports whether the set grew.
    pub fn union_into(&mut self, k: &String, o: &LitSet) -> (added: bool)
        requires
            old(self).wf(),
        ensures
            final(self).wf(),
            final(self).map() == old(self).map().insert(
                k@,
                old(self).val_or_empty(k@).union(o.set()),
            ),
            added == !o.set().subset_of(old(self).val_or_empty(k@)),
            final(self).map().dom() == old(self).map().dom().insert(k@),
            final(self).total() >= old(self).total(),
            added ==> final(self).total() > old(self).total(),
            !added ==> final(self).total() == old(self).total(),
            final(self).key_seq().len() == old(self).key_seq().len() + (
            if old(self).map().dom().contains(k@) {
                0int
            } else {
                1int
            }),
    {
        let i = self.ensure_key(k);
        let ghost mid = *self;
        let ghost vseq = self.val_seq();
        let added = self.vals[i].union_from(o);
        proof {
            let vnew = self.val_seq()[i as int];
            let vold = vseq[i as int];
            assert(self.val_seq() =~= vseq.update(i as int, vnew));
            lemma_sum_sizes_update(vseq, i as int, vnew);
            vold.lemma_card();
            vnew.lemma_card();
            if added {
                let w = choose|w: Seq<char>| o.set().contains(w) && !vold.set().contains(w);
                assert(vnew.set().contains(w));
                assert(vold.set().insert(w).subset_of(vnew.set()));
                lemma_len_subset(vold.set().insert(w), vnew.set());
                assert(vold.set().insert(w).len() == vold.set().len() + 1);
            } else {
                assert(vnew.set() =~= vold.set());
            }
            mid.lemma_val_at(i as int);
            Self::lemma_map_update(mid, *self, i as int);
            assert(self.map() =~= old(self).map().insert(
                k@,
                old(self).val_or_empty(k@).union(o.set()),
            ));
            assert(self.map().dom() =~= old(self).map().dom().insert(k@));
        }
        added
    }
}

} // verus!
