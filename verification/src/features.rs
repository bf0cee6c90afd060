//! A set of feature names, kept in lexicographic order.

use crate::text::{
    chars_eq, chars_lt, chars_of, lemma_lex_irreflexive, lemma_lex_total, lemma_lex_transitive,
    lex_lt, texts,
};
use vstd::prelude::*;

verus! {

/// Each text comes strictly before every later one.
pub open spec fn strictly_sorted(v: Seq<Seq<char>>) -> bool {
    forall|i: int, j: int| 0 <= i < j < v.len() ==> lex_lt(#[trigger] v[i], #[trigger] v[j])
}

/// A strictly sorted sequence is fixed by the set of its items.
pub proof fn lemma_sorted_unique(a: Seq<Seq<char>>, b: Seq<Seq<char>>)
    requires
        strictly_sorted(a),
        strictly_sorted(b),
        a.to_set() == b.to_set(),
    ensures
        a == b,
    decreases a.len(),
{
    if a.len() == 0 {
        if b.len() > 0 {
            assert(b.to_set().contains(b[0]));
            assert(a.contains(b[0]));
        }
        assert(a =~= b);
    } else if b.len() == 0 {
        assert(a.to_set().contains(a[0]));
        assert(b.contains(a[0]));
    } else {
        // the two largest items are the same
        let x = a.last();
        let y = b.last();
        assert(a.to_set().contains(x));
        assert(b.contains(x));
        assert(b.to_set().contains(y));
        assert(a.contains(y));
        let i = choose|i: int| 0 <= i < b.len() && b[i] == x;
        let j = choose|j: int| 0 <= j < a.len() && a[j] == y;
        if lex_lt(x, y) {
            if j < a.len() - 1 {
                lemma_lex_transitive(y, x, y);
            }
            lemma_lex_irreflexive(y);
        } else if lex_lt(y, x) {
            if i < b.len() - 1 {
                lemma_lex_transitive(x, y, x);
            }
            lemma_lex_irreflexive(x);
        } else {
            lemma_lex_total(x, y);
        }
        assert(x == y);
        let a0 = a.drop_last();
        let b0 = b.drop_last();
        assert forall|t: Seq<char>| a0.to_set().contains(t) == b0.to_set().contains(t) by {
            lemma_lex_irreflexive(x);
            if a0.contains(t) {
                let k = choose|k: int| 0 <= k < a0.len() && a0[k] == t;
                assert(a[k] == t && lex_lt(a[k], x));
                assert(a.to_set().contains(t));
                assert(b.contains(t));
                let m = choose|m: int| 0 <= m < b.len() && b[m] == t;
                assert(m < b.len() - 1);
                assert(b0[m] == t);
            }
            if b0.contains(t) {
                let k = choose|k: int| 0 <= k < b0.len() && b0[k] == t;
                assert(b[k] == t && lex_lt(b[k], y));
                assert(b.to_set().contains(t));
                assert(a.contains(t));
                let m = choose|m: int| 0 <= m < a.len() && a[m] == t;
                assert(m < a.len() - 1);
                assert(a0[m] == t);
            }
        }
        assert(a0.to_set() =~= b0.to_set());
        assert(strictly_sorted(a0)) by {
            assert forall|p: int, q: int| 0 <= p < q < a0.len() implies lex_lt(
                #[trigger] a0[p],
                #[trigger] a0[q],
            ) by {
                assert(lex_lt(a[p], a[q]));
            }
        }
        assert(strictly_sorted(b0)) by {
            assert forall|p: int, q: int| 0 <= p < q < b0.len() implies lex_lt(
                #[trigger] b0[p],
                #[trigger] b0[q],
            ) by {
                assert(lex_lt(b[p], b[q]));
            }
        }
        lemma_sorted_unique(a0, b0);
        assert(a =~= a0.push(x));
        assert(b =~= b0.push(y));
    }
}

/// A set of feature names. Its names are held once each, in lexicographic
/// order, so that two equal sets list their names alike.
pub struct FeatureSet {
    names: Vec<String>,
}

impl View for FeatureSet {
    type V = Set<Seq<char>>;

    closed spec fn view(&self) -> Set<Seq<char>> {
        texts(self.names@).to_set()
    }
}

impl FeatureSet {
    /// The names are held in strictly ascending order, and so none twice.
    pub closed spec fn wf(&self) -> bool {
        strictly_sorted(texts(self.names@))
    }

    /// The empty set.
    pub fn new() -> (r: FeatureSet)
        ensures
            r.wf(),
            r@ == Set::<Seq<char>>::empty(),
    {
        let r = FeatureSet { names: Vec::new() };
        assert(r@ =~= Set::<Seq<char>>::empty());
        r
    }

    /// Whether the set holds no name.
    pub fn is_empty(&self) -> (r: bool)
        ensures
            r == (self@ == Set::<Seq<char>>::empty()),
    {
        let r = self.names.len() == 0;
        proof {
            if r {
                assert(self@ =~= Set::<Seq<char>>::empty());
            } else {
                assert(texts(self.names@)[0] == self.names@[0]@);
                assert(texts(self.names@).contains(self.names@[0]@));
                assert(self@.contains(self.names@[0]@));
            }
        }
        r
    }

    /// Whether the set holds `name`.
    pub fn contains(&self, name: &str) -> (r: bool)
        ensures
            r == self@.contains(name@),
    {
        let target = chars_of(name);
        let mut i: usize = 0;
        while i < self.names.len()
            invariant
                i <= self.names.len(),
                target@ == name@,
                forall|k: int| 0 <= k < i ==> (#[trigger] texts(self.names@)[k]) != name@,
            decreases self.names.len() - i,
        {
            let cur = chars_of(self.names[i].as_str());
            assert(texts(self.names@)[i as int] == cur@);
            if chars_eq(&cur, &target) {
                return true;
            }
            i += 1;
        }
        false
    }

    /// Adds one name.
    pub fn insert(&mut self, name: &str)
        requires
            old(self).wf(),
        ensures
            final(self).wf(),
            final(self)@ == old(self)@.insert(name@),
    {
        let target = chars_of(name);
        let ghost before = texts(self.names@);
        let mut i: usize = 0;
        let mut placed: bool = false;
        while i < self.names.len() && !placed
            invariant
                i <= self.names.len(),
                target@ == name@,
                before == texts(self.names@),
                *self == *old(self),
                forall|k: int| 0 <= k < i ==> lex_lt(#[trigger] before[k], name@),
                placed ==> i < self.names.len() && !lex_lt(before[i as int], name@),
            decreases self.names.len() - i + (if placed { 0int } else { 1int }),
        {
            let cur = chars_of(self.names[i].as_str());
            assert(before[i as int] == cur@);
            if chars_lt(&cur, &target) {
                i += 1;
            } else {
                placed = true;
            }
        }
        if i < self.names.len() {
            let cur = chars_of(self.names[i].as_str());
            assert(before[i as int] == cur@);
            if !chars_lt(&target, &cur) {
                proof {
                    lemma_lex_total(cur@, target@);
                    assert(before.contains(name@));
                    assert(self@ =~= old(self)@.insert(name@));
                }
                return ;
            }
        }
        self.names.insert(i, name.to_owned());
        proof {
            let after = texts(self.names@);
            assert(after =~= before.insert(i as int, name@));
            assert forall|p: int, q: int| 0 <= p < q < after.len() implies lex_lt(
                #[trigger] after[p],
                #[trigger] after[q],
            ) by {
                if q < i {
                    assert(lex_lt(before[p], before[q]));
                } else if q == i {
                    assert(lex_lt(before[p], name@));
                } else if p == i {
                    if q - 1 > i {
                        assert(lex_lt(before[i as int], before[q - 1]));
                        lemma_lex_transitive(name@, before[i as int], before[q - 1]);
                    }
                } else if p < i {
                    assert(lex_lt(before[p], name@));
                    if q - 1 > i {
                        assert(lex_lt(before[i as int], before[q - 1]));
                        lemma_lex_transitive(name@, before[i as int], before[q - 1]);
                    }
                    lemma_lex_transitive(before[p], name@, before[q - 1]);
                } else {
                    assert(lex_lt(before[p - 1], before[q - 1]));
                }
            }
            assert forall|t: Seq<char>| after.contains(t) == (before.contains(t) || t == name@) by {
                if before.contains(t) {
                    let k = choose|k: int| 0 <= k < before.len() && before[k] == t;
                    if k < i {
                        assert(after[k] == t);
                    } else {
                        assert(after[k + 1] == t);
                    }
                }
                if t == name@ {
                    assert(after[i as int] == t);
                }
                if after.contains(t) {
                    let k = choose|k: int| 0 <= k < after.len() && after[k] == t;
                    if k < i {
                        assert(before[k] == t);
                    } else if k > i {
                        assert(before[k - 1] == t);
                    }
                }
            }
            assert(self@ =~= old(self)@.insert(name@));
        }
    }

    /// Adds every name of `other`.
    pub fn extend(&mut self, other: &FeatureSet)
        requires
            old(self).wf(),
        ensures
            final(self).wf(),
            final(self)@ == old(self)@.union(other@),
    {
        let mut i: usize = 0;
        while i < other.names.len()
            invariant
                i <= other.names.len(),
                self.wf(),
                forall|t: Seq<char>|
                    self@.contains(t) == (old(self)@.contains(t) || exists|k: int|
                        0 <= k < i && #[trigger] texts(other.names@)[k] == t),
            decreases other.names.len() - i,
        {
            let ghost prev = self@;
            self.insert(other.names[i].as_str());
            i += 1;
            proof {
                let added = texts(other.names@)[i - 1];
                assert forall|t: Seq<char>|
                    self@.contains(t) == (old(self)@.contains(t) || exists|k: int|
                        0 <= k < i && #[trigger] texts(other.names@)[k] == t) by {
                    if prev.contains(t) && !old(self)@.contains(t) {
                        let k = choose|k: int|
                            0 <= k < i - 1 && #[trigger] texts(other.names@)[k] == t;
                        assert(texts(other.names@)[k] == t);
                    }
                    if t == added {
                        assert(texts(other.names@)[i - 1] == t);
                    }
                }
            }
        }
        assert(self@ =~= old(self)@.union(other@));
    }

    /// A set with the same names.
    pub fn duplicate(&self) -> (r: FeatureSet)
        ensures
            r.wf(),
            r@ == self@,
    {
        let mut r = FeatureSet::new();
        r.extend(self);
        assert(r@ =~= self@);
        r
    }

    /// The names, each once, in lexicographic order.
    pub fn to_vec(&self) -> (r: Vec<String>)
        requires
            self.wf(),
        ensures
            strictly_sorted(texts(r@)),
            texts(r@).to_set() == self@,
    {
        let mut out: Vec<String> = Vec::new();
        let mut i: usize = 0;
        while i < self.names.len()
            invariant
                i <= self.names.len(),
                texts(out@) == texts(self.names@).subrange(0, i as int),
            decreases self.names.len() - i,
        {
            let ghost held = out@;
            out.push(self.names[i].clone());
            i += 1;
            assert(texts(out@) =~= texts(held).push(self.names@[i - 1]@));
            assert(texts(out@) =~= texts(self.names@).subrange(0, i as int));
        }
        assert(texts(out@) =~= texts(self.names@));
        out
    }
}

} // verus!
