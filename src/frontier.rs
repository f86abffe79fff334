//! The frontier: cells with a pending belief, in order of first insertion.
use vstd::prelude::*;

use crate::grid::Pos;

verus! {

/// `items` with every `p` taken out, the others in their order.
pub open spec fn without(items: Seq<Pos>, p: Pos) -> Seq<Pos>
    decreases items.len(),
{
    if items.len() == 0 {
        items
    } else {
        let rest = without(items.drop_last(), p);
        if items.last() == p { rest } else { rest.push(items.last()) }
    }
}

/// Taking out a position that is absent changes nothing.
pub proof fn lemma_without_absent(items: Seq<Pos>, p: Pos)
    requires
        !items.contains(p),
    ensures
        without(items, p) == items,
    decreases items.len(),
{
    if items.len() > 0 {
        assert(!items.drop_last().contains(p)) by {
            if items.drop_last().contains(p) {
                let j = choose|j: int| 0 <= j < items.drop_last().len() && items.drop_last()[j] == p;
                assert(items[j] == p);
            }
        }
        lemma_without_absent(items.drop_last(), p);
        assert(items.drop_last().push(items.last()) =~= items);
    }
}

/// Taking out the one occurrence of a position removes its index.
pub proof fn lemma_without_at(items: Seq<Pos>, k: int)
    requires
        items.no_duplicates(),
        0 <= k < items.len(),
    ensures
        without(items, items[k]) == items.remove(k),
    decreases items.len(),
{
    let p = items[k];
    let n = items.len() - 1;
    if k == n {
        assert(!items.drop_last().contains(p)) by {
            if items.drop_last().contains(p) {
                let j = choose|j: int| 0 <= j < items.drop_last().len() && items.drop_last()[j] == p;
                assert(items[j] == p && j != k);
            }
        }
        lemma_without_absent(items.drop_last(), p);
        assert(items.remove(k) =~= items.drop_last());
    } else {
        assert(items.drop_last()[k] == p);
        assert(items.last() != p);
        lemma_without_at(items.drop_last(), k);
        assert(items.remove(k) =~= items.drop_last().remove(k).push(items.last()));
    }
}

/// Distinct positions, kept in the order in which they were added.
pub struct Frontier {
    positions: Vec<Pos>,
}

impl Frontier {
    pub closed spec fn items(&self) -> Seq<Pos> {
        self.positions@
    }

    pub open spec fn wf(&self) -> bool {
        self.items().no_duplicates()
    }

    pub open spec fn has(&self, p: Pos) -> bool {
        self.items().contains(p)
    }

    pub fn new() -> (f: Frontier)
        ensures
            f.wf(),
            f.items() == Seq::<Pos>::empty(),
    {
        Frontier { positions: Vec::new() }
    }

    pub fn len(&self) -> (n: usize)
        ensures
            n == self.items().len(),
    {
        self.positions.len()
    }

    /// The `i`-th position.
    pub fn at(&self, i: usize) -> (p: Pos)
        requires
            i < self.items().len(),
        ensures
            p == self.items()[i as int],
    {
        self.positions[i]
    }

    /// Whether `p` is on the frontier.
    pub fn contains(&self, p: Pos) -> (r: bool)
        ensures
            r == self.has(p),
    {
        let mut i: usize = 0;
        while i < self.positions.len()
            invariant
                i <= self.positions@.len(),
                forall|j: int| 0 <= j < i ==> self.positions@[j] != p,
            decreases self.positions@.len() - i,
        {
            let q = self.positions[i];
            if q.0 == p.0 && q.1 == p.1 {
                return true;
            }
            i = i + 1;
        }
        false
    }

    /// Adds `p` at the end unless it is there already.
    pub fn insert(&mut self, p: Pos)
        requires
            old(self).wf(),
        ensures
            final(self).wf(),
            final(self).items() == if old(self).has(p) {
                old(self).items()
            } else {
                old(self).items().push(p)
            },
    {
        if !self.contains(p) {
            self.positions.push(p);
        }
    }

    /// Takes `p` off the frontier; the others keep their order.
    pub fn remove(&mut self, p: Pos)
        requires
            old(self).wf(),
        ensures
            final(self).wf(),
            forall|q: Pos| #[trigger] final(self).has(q) <==> (old(self).has(q) && q != p),
            final(self).items() == without(old(self).items(), p),
            !old(self).has(p) ==> final(self).items() == old(self).items(),
            old(self).has(p) ==> exists|k: int|
                0 <= k < old(self).items().len() && old(self).items()[k] == p
                && final(self).items() == old(self).items().remove(k),
    {
        let mut i: usize = 0;
        while i < self.positions.len()
            invariant
                i <= self.positions@.len(),
                self.positions@ == old(self).items(),
                old(self).items().no_duplicates(),
                forall|j: int| 0 <= j < i ==> self.positions@[j] != p,
            decreases self.positions@.len() - i,
        {
            let q = self.positions[i];
            if q.0 == p.0 && q.1 == p.1 {
                let ghost before = self.positions@;
                self.positions.remove(i);
                proof {
                    lemma_without_at(before, i as int);
                    assert(self.positions@ == before.remove(i as int));
                    assert(before[i as int] == p);
                    assert(before.no_duplicates());
                    assert forall|q: Pos| self.positions@.contains(q) <==> (before.contains(q) && q != p) by {
                        if before.contains(q) && q != p {
                            let j = choose|j: int| 0 <= j < before.len() && before[j] == q;
                            if j < i {
                                assert(self.positions@[j] == q);
                            } else {
                                assert(self.positions@[j - 1] == q);
                            }
                        }
                        if self.positions@.contains(q) {
                            let j = choose|j: int| 0 <= j < self.positions@.len() && self.positions@[j] == q;
                            if j < i {
                                assert(before[j] == q);
                                assert(j != i);
                            } else {
                                assert(before[j + 1] == q);
                                assert(j + 1 != i);
                            }
                        }
                    }
                    assert(self.positions@.no_duplicates()) by {
                        assert forall|a: int, b: int| 0 <= a < b < self.positions@.len()
                            implies self.positions@[a] != self.positions@[b] by {
                            let a0 = if a < i { a } else { a + 1 };
                            let b0 = if b < i { b } else { b + 1 };
                            assert(self.positions@[a] == before[a0]);
                            assert(self.positions@[b] == before[b0]);
                            assert(a0 != b0);
                            assert(before[a0] != before[b0]);
                        }
                    }
                }
                return;
            }
            i = i + 1;
        }
        proof {
            lemma_without_absent(self.positions@, p);
        }
    }
}

} // verus!
