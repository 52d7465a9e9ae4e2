//! Duplicate-free sets of byte strings, kept in lexicographic order.

use crate::order::compare;
use crate::order::lemma_ascending_unique;
use crate::order::lemma_lex_asymmetric;
use crate::order::lemma_lex_total;
use crate::order::lemma_lex_transitive;
use crate::order::lex_lt;
use crate::order::Rank;
use crate::order::strictly_ascending;
use vstd::prelude::*;
use vstd::slice::slice_to_vec;

verus! {

/// What a vector of byte strings lists, element by element.
pub open spec fn listing(items: Seq<Vec<u8>>) -> Seq<Seq<u8>> {
    Seq::new(items.len(), |i: int| items[i]@)
}

/// A set of byte strings. Its view lists the elements in strictly ascending
/// lexicographic order, so that equal sets have equal views.
pub struct SortedSet {
    items: Vec<Vec<u8>>,
}

impl View for SortedSet {
    type V = Seq<Seq<u8>>;

    closed spec fn view(&self) -> Seq<Seq<u8>> {
        listing(self.items@)
    }
}

/// Where a search for a byte string ended.
pub struct Position {
    /// How many elements come strictly before the byte string.
    pub index: usize,
    /// Whether the element at `index` is the byte string itself.
    pub found: bool,
}

impl SortedSet {
    /// The invariant: the listing is strictly ascending, hence without duplicates.
    pub open spec fn wf(&self) -> bool {
        strictly_ascending(self@)
    }

    /// The elements as a mathematical set.
    pub open spec fn elements(&self) -> Set<Seq<u8>> {
        Set::new(|x: Seq<u8>| self@.contains(x))
    }

    /// The empty set.
    pub fn new() -> (s: Self)
        ensures
            s.wf(),
            s@ == Seq::<Seq<u8>>::empty(),
            s.elements() == Set::<Seq<u8>>::empty(),
    {
        let s = SortedSet { items: Vec::new() };
        assert(s@ =~= Seq::<Seq<u8>>::empty());
        assert(s.elements() =~= Set::<Seq<u8>>::empty());
        s
    }

    /// The number of elements.
    pub fn len(&self) -> (n: usize)
        ensures
            n == self@.len(),
    {
        self.items.len()
    }

    /// Whether the set has no element.
    pub fn is_empty(&self) -> (r: bool)
        ensures
            r == (self@.len() == 0),
    {
        self.items.len() == 0
    }

    /// The element at place `i` of the ascending listing.
    pub fn get(&self, i: usize) -> (r: Option<&Vec<u8>>)
        ensures
            i < self@.len() ==> r is Some && r.unwrap()@ == self@[i as int],
            i >= self@.len() ==> r is None,
    {
        if i < self.items.len() {
            Some(&self.items[i])
        } else {
            None
        }
    }

    /// Finds the place of `x` in the listing by bisection.
    pub fn search(&self, x: &[u8]) -> (p: Position)
        requires
            self.wf(),
        ensures
            p.index <= self@.len(),
            forall|i: int| 0 <= i < p.index ==> lex_lt(#[trigger] self@[i], x@),
            forall|i: int| p.index < i < self@.len() ==> lex_lt(x@, #[trigger] self@[i]),
            !p.found && p.index < self@.len() ==> lex_lt(x@, self@[p.index as int]),
            p.found ==> p.index < self@.len() && self@[p.index as int] == x@,
            p.found == self@.contains(x@),
    {
        let mut lo: usize = 0;
        let mut hi: usize = self.items.len();
        while lo < hi
            invariant
                self.wf(),
                lo <= hi <= self@.len(),
                forall|i: int| 0 <= i < lo ==> lex_lt(#[trigger] self@[i], x@),
                forall|i: int| hi <= i < self@.len() ==> lex_lt(x@, #[trigger] self@[i]),
            decreases hi - lo,
        {
            let mid: usize = lo + (hi - lo) / 2;
            match compare(self.items[mid].as_slice(), x) {
                Rank::Before => {
                    proof {
                        assert forall|i: int| 0 <= i < mid + 1 implies lex_lt(
                            #[trigger] self@[i],
                            x@,
                        ) by {
                            if i < mid {
                                lemma_lex_transitive(self@[i], self@[mid as int], x@);
                            }
                        }
                    }
                    lo = mid + 1;
                },
                Rank::Same => {
                    proof {
                        assert(self@[mid as int] == x@);
                        assert forall|i: int| 0 <= i < mid implies lex_lt(
                            #[trigger] self@[i],
                            x@,
                        ) by {}
                        assert forall|i: int| mid < i < self@.len() implies lex_lt(
                            x@,
                            #[trigger] self@[i],
                        ) by {}
                    }
                    return Position { index: mid, found: true };
                },
                Rank::After => {
                    proof {
                        lemma_lex_total(self@[mid as int], x@);
                        assert forall|i: int| mid <= i < self@.len() implies lex_lt(
                            x@,
                            #[trigger] self@[i],
                        ) by {
                            if mid < i {
                                lemma_lex_transitive(x@, self@[mid as int], self@[i]);
                            }
                        }
                    }
                    hi = mid;
                },
            }
        }
        proof {
            if self@.contains(x@) {
                let k = choose|k: int| 0 <= k < self@.len() && self@[k] == x@;
                if k < lo {
                    lemma_lex_asymmetric(self@[k], x@);
                } else {
                    lemma_lex_asymmetric(x@, self@[k]);
                }
            }
        }
        Position { index: lo, found: false }
    }

    /// Whether `x` is an element.
    pub fn contains(&self, x: &[u8]) -> (r: bool)
        requires
            self.wf(),
        ensures
            r == self.elements().contains(x@),
    {
        self.search(x).found
    }

    /// Adds `x`; a byte string that is already an element is not added again.
    /// Returns whether the set grew.
    pub fn insert(&mut self, x: &[u8]) -> (added: bool)
        requires
            old(self).wf(),
        ensures
            final(self).wf(),
            final(self).elements() == old(self).elements().insert(x@),
            added == !old(self).elements().contains(x@),
            !added ==> final(self)@ == old(self)@,
            added ==> final(self)@.len() == old(self)@.len() + 1,
    {
        let p = self.put(x);
        !p.found
    }

    /// Adds `x` as `insert` does and returns the place at which it stands in
    /// the listing afterwards, with whether it was an element before.
    pub fn put(&mut self, x: &[u8]) -> (p: Position)
        requires
            old(self).wf(),
        ensures
            final(self).wf(),
            final(self).elements() == old(self).elements().insert(x@),
            p.found == old(self).elements().contains(x@),
            p.index <= old(self)@.len(),
            p.index < final(self)@.len(),
            final(self)@[p.index as int] == x@,
            p.found ==> final(self)@ == old(self)@,
            !p.found ==> final(self)@ == old(self)@.insert(p.index as int, x@),
    {
        let p = self.search(x);
        if p.found {
            assert(self.elements() =~= self.elements().insert(x@));
            return p;
        }
        let ghost before = self@;
        self.items.insert(p.index, slice_to_vec(x));
        proof {
            let after = self@;
            let at = p.index as int;
            assert(after =~= before.insert(at, x@));
            assert forall|i: int, j: int| 0 <= i < j < after.len() implies lex_lt(
                #[trigger] after[i],
                #[trigger] after[j],
            ) by {
                if j < at {
                    assert(after[i] == before[i] && after[j] == before[j]);
                } else if j == at {
                    assert(after[i] == before[i]);
                } else if i < at {
                    assert(after[i] == before[i] && after[j] == before[j - 1]);
                } else if i == at {
                    assert(after[j] == before[j - 1]);
                } else {
                    assert(after[i] == before[i - 1] && after[j] == before[j - 1]);
                }
            }
            assert forall|y: Seq<u8>| after.contains(y) <==> (before.contains(y) || y == x@) by {
                if before.contains(y) {
                    let k = choose|k: int| 0 <= k < before.len() && before[k] == y;
                    if k < at {
                        assert(after[k] == y);
                    } else {
                        assert(after[k + 1] == y);
                    }
                }
                if y == x@ {
                    assert(after[at] == y);
                }
                if after.contains(y) {
                    let k = choose|k: int| 0 <= k < after.len() && after[k] == y;
                    if k < at {
                        assert(before[k] == y);
                    } else if k > at {
                        assert(before[k - 1] == y);
                    }
                }
            }
            assert(self.elements() =~= old(self).elements().insert(x@));
        }
        p
    }

    /// The union of two sets.
    pub fn merge(&self, other: &SortedSet) -> (u: SortedSet)
        requires
            self.wf(),
            other.wf(),
        ensures
            u.wf(),
            u.elements() == self.elements().union(other.elements()),
    {
        let mut out: Vec<Vec<u8>> = Vec::new();
        let mut i: usize = 0;
        let mut j: usize = 0;
        let ghost a = self@;
        let ghost b = other@;
        while i < self.items.len() || j < other.items.len()
            invariant
                a == self@,
                b == other@,
                strictly_ascending(a),
                strictly_ascending(b),
                i <= a.len(),
                j <= b.len(),
                strictly_ascending(listing(out@)),
                forall|k: int, m: int|
                    0 <= k < out@.len() && i <= m < a.len() ==> lex_lt(
                        #[trigger] listing(out@)[k],
                        #[trigger] a[m],
                    ),
                forall|k: int, m: int|
                    0 <= k < out@.len() && j <= m < b.len() ==> lex_lt(
                        #[trigger] listing(out@)[k],
                        #[trigger] b[m],
                    ),
                forall|y: Seq<u8>|
                    listing(out@).contains(y) <==> (a.take(i as int).contains(y) || b.take(
                        j as int,
                    ).contains(y)),
            decreases (a.len() - i) + (b.len() - j),
        {
            let ghost prev = listing(out@);
            let ghost i0 = i as int;
            let ghost j0 = j as int;
            let rank = if i >= self.items.len() {
                Rank::After
            } else if j >= other.items.len() {
                Rank::Before
            } else {
                compare(self.items[i].as_slice(), other.items[j].as_slice())
            };
            let ghost next: Seq<u8>;
            match rank {
                Rank::Before => {
                    proof {
                        next = a[i0];
                    }
                    out.push(slice_to_vec(self.items[i].as_slice()));
                    i += 1;
                },
                Rank::Same => {
                    proof {
                        next = a[i0];
                    }
                    out.push(slice_to_vec(self.items[i].as_slice()));
                    i += 1;
                    j += 1;
                },
                Rank::After => {
                    proof {
                        next = b[j0];
                    }
                    out.push(slice_to_vec(other.items[j].as_slice()));
                    j += 1;
                },
            }
            proof {
                let cur = listing(out@);
                assert(cur =~= prev.push(next));
                assert forall|p: int, q: int| 0 <= p < q < cur.len() implies lex_lt(
                    #[trigger] cur[p],
                    #[trigger] cur[q],
                ) by {
                    assert(cur[p] == prev[p]);
                    if q < prev.len() {
                        assert(cur[q] == prev[q]);
                    }
                }
                assert forall|k: int, m: int| 0 <= k < cur.len() && i <= m < a.len() implies lex_lt(
                    #[trigger] cur[k],
                    #[trigger] a[m],
                ) by {
                    if k < prev.len() {
                        assert(cur[k] == prev[k]);
                    } else if i0 < a.len() && next == a[i0] {
                    } else {
                        if j0 + 1 <= b.len() && i0 < a.len() {
                            lemma_lex_total(a[i0], b[j0]);
                            if i0 < m {
                                lemma_lex_transitive(b[j0], a[i0], a[m]);
                            }
                        }
                    }
                }
                assert forall|k: int, m: int| 0 <= k < cur.len() && j <= m < b.len() implies lex_lt(
                    #[trigger] cur[k],
                    #[trigger] b[m],
                ) by {
                    if k < prev.len() {
                        assert(cur[k] == prev[k]);
                    } else if j0 < b.len() && next == b[j0] {
                    } else {
                        if j0 < b.len() {
                            if j0 < m {
                                lemma_lex_transitive(a[i0], b[j0], b[m]);
                            }
                        }
                    }
                }
                assert forall|y: Seq<u8>|
                    cur.contains(y) <==> (a.take(i as int).contains(y) || b.take(
                        j as int,
                    ).contains(y)) by {
                    lemma_take_contains(a, i0, y);
                    lemma_take_contains(b, j0, y);
                    if cur.contains(y) {
                        let k = choose|k: int| 0 <= k < cur.len() && cur[k] == y;
                        if k < prev.len() {
                            assert(prev[k] == y);
                        } else {
                            assert(y == next);
                        }
                    }
                    if prev.contains(y) {
                        let k = choose|k: int| 0 <= k < prev.len() && prev[k] == y;
                        assert(cur[k] == y);
                    }
                    if y == next {
                        assert(cur[prev.len() as int] == y);
                    }
                }
            }
        }
        let u = SortedSet { items: out };
        proof {
            assert(a.take(i as int) =~= a);
            assert(b.take(j as int) =~= b);
            assert(u.elements() =~= self.elements().union(other.elements()));
        }
        u
    }

    /// The elements in ascending order, as owned byte strings.
    pub fn into_vec(self) -> (v: Vec<Vec<u8>>)
        ensures
            listing(v@) == self@,
    {
        self.items
    }
}

/// Sets with the same elements have the same listing: in which order the
/// elements came in, and in which order sets were merged, leaves no trace.
pub proof fn lemma_same_elements_same_listing(a: SortedSet, b: SortedSet)
    requires
        a.wf(),
        b.wf(),
        a.elements() == b.elements(),
    ensures
        a@ == b@,
{
    assert forall|x: Seq<u8>| a@.contains(x) <==> b@.contains(x) by {
        assert(a.elements().contains(x) == a@.contains(x));
        assert(b.elements().contains(x) == b@.contains(x));
    }
    lemma_ascending_unique(a@, b@);
}

/// Taking one element more of a listing adds that element and nothing else.
pub proof fn lemma_take_contains(s: Seq<Seq<u8>>, n: int, y: Seq<u8>)
    requires
        0 <= n <= s.len(),
    ensures
        n < s.len() ==> (s.take(n + 1).contains(y) <==> (s.take(n).contains(y) || y == s[n])),
{
    if n < s.len() {
        let t = s.take(n);
        let t1 = s.take(n + 1);
        if t.contains(y) {
            let k = choose|k: int| 0 <= k < t.len() && t[k] == y;
            assert(t1[k] == y);
        }
        if y == s[n] {
            assert(t1[n] == y);
        }
        if t1.contains(y) {
            let k = choose|k: int| 0 <= k < t1.len() && t1[k] == y;
            if k < n {
                assert(t[k] == y);
            }
        }
    }
}

} // verus!
