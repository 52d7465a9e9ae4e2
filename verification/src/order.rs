//! Lexicographic order on byte strings.

use vstd::prelude::*;

verus! {

/// `a` comes strictly before `b` when bytes are compared position by position
/// and a proper prefix comes before any of its extensions.
pub open spec fn lex_lt(a: Seq<u8>, b: Seq<u8>) -> bool
    decreases a.len(),
{
    if b.len() == 0 {
        false
    } else if a.len() == 0 {
        true
    } else if a[0] != b[0] {
        a[0] < b[0]
    } else {
        lex_lt(a.drop_first(), b.drop_first())
    }
}

/// Every element of `s` comes strictly before each later one.
pub open spec fn strictly_ascending(s: Seq<Seq<u8>>) -> bool {
    forall|i: int, j: int| 0 <= i < j < s.len() ==> lex_lt(#[trigger] s[i], #[trigger] s[j])
}

/// `out` lists the elements of `set`, each once, in ascending order.
pub open spec fn lists_in_order(out: Seq<Seq<u8>>, set: Set<Seq<u8>>) -> bool {
    &&& strictly_ascending(out)
    &&& forall|c: Seq<u8>| out.contains(c) <==> set.contains(c)
}

/// The elements of a finite set in ascending order.
pub open spec fn ascending_listing(set: Set<Seq<u8>>) -> Seq<Seq<u8>> {
    choose|out: Seq<Seq<u8>>| lists_in_order(out, set)
}

/// How two byte strings stand to each other in lexicographic order.
#[derive(Clone, Copy, PartialEq, Eq, Structural, Debug)]
pub enum Rank {
    Before,
    Same,
    After,
}

/// The rank of `a` relative to `b`.
pub open spec fn rank_of(a: Seq<u8>, b: Seq<u8>) -> Rank {
    if lex_lt(a, b) {
        Rank::Before
    } else if a == b {
        Rank::Same
    } else {
        Rank::After
    }
}

/// No byte string comes before itself.
pub proof fn lemma_lex_irreflexive(a: Seq<u8>)
    ensures
        !lex_lt(a, a),
    decreases a.len(),
{
    if a.len() > 0 {
        lemma_lex_irreflexive(a.drop_first());
    }
}

/// What comes before a byte string comes before all that follow it.
pub proof fn lemma_lex_transitive(a: Seq<u8>, b: Seq<u8>, c: Seq<u8>)
    requires
        lex_lt(a, b),
        lex_lt(b, c),
    ensures
        lex_lt(a, c),
    decreases a.len(),
{
    if a.len() > 0 && a[0] == b[0] && b[0] == c[0] {
        lemma_lex_transitive(a.drop_first(), b.drop_first(), c.drop_first());
    }
}

/// Of two different byte strings one comes before the other.
pub proof fn lemma_lex_total(a: Seq<u8>, b: Seq<u8>)
    ensures
        lex_lt(a, b) || a == b || lex_lt(b, a),
    decreases a.len(),
{
    if a.len() > 0 && b.len() > 0 && a[0] == b[0] {
        lemma_lex_total(a.drop_first(), b.drop_first());
        if a.drop_first() == b.drop_first() {
            assert(a =~= seq![a[0]] + a.drop_first());
            assert(b =~= seq![b[0]] + b.drop_first());
        }
    } else if a.len() == 0 && b.len() == 0 {
        assert(a =~= b);
    }
}

/// Of two byte strings at most one comes before the other, and then they
/// differ.
pub proof fn lemma_lex_asymmetric(a: Seq<u8>, b: Seq<u8>)
    requires
        lex_lt(a, b),
    ensures
        !lex_lt(b, a),
        a != b,
{
    if lex_lt(b, a) {
        lemma_lex_transitive(a, b, a);
    }
    lemma_lex_irreflexive(a);
}

/// Where two byte strings agree on their first `n` bytes, their order is that
/// of what follows.
pub proof fn lemma_lex_skip_common(a: Seq<u8>, b: Seq<u8>, n: int)
    requires
        0 <= n <= a.len(),
        n <= b.len(),
        forall|k: int| 0 <= k < n ==> a[k] == b[k],
    ensures
        lex_lt(a, b) == lex_lt(a.skip(n), b.skip(n)),
    decreases n,
{
    if n == 0 {
        assert(a.skip(0) =~= a);
        assert(b.skip(0) =~= b);
    } else {
        let a1 = a.drop_first();
        let b1 = b.drop_first();
        assert forall|k: int| 0 <= k < n - 1 implies a1[k] == b1[k] by {
            assert(a1[k] == a[k + 1]);
        }
        lemma_lex_skip_common(a1, b1, n - 1);
        assert(a1.skip(n - 1) =~= a.skip(n));
        assert(b1.skip(n - 1) =~= b.skip(n));
    }
}

/// Two strictly ascending listings of the same elements are the same listing.
pub proof fn lemma_ascending_unique(s: Seq<Seq<u8>>, t: Seq<Seq<u8>>)
    requires
        strictly_ascending(s),
        strictly_ascending(t),
        forall|x: Seq<u8>| s.contains(x) <==> t.contains(x),
    ensures
        s == t,
    decreases s.len(),
{
    if s.len() == 0 {
        if t.len() > 0 {
            assert(t.contains(t[0]));
        }
        assert(s =~= t);
    } else if t.len() == 0 {
        assert(s.contains(s[0]));
    } else {
        // The least element of each listing is its first.
        assert(s.contains(s[0]));
        assert(t.contains(t[0]));
        let i = choose|i: int| 0 <= i < t.len() && t[i] == s[0];
        let j = choose|j: int| 0 <= j < s.len() && s[j] == t[0];
        if i > 0 {
            if j > 0 {
                lemma_lex_transitive(s[0], s[j], t[i]);
            }
            lemma_lex_irreflexive(s[0]);
        }
        assert(s[0] == t[0]);
        let s1 = s.drop_first();
        let t1 = t.drop_first();
        assert forall|x: Seq<u8>| s1.contains(x) <==> t1.contains(x) by {
            if s1.contains(x) {
                let k = choose|k: int| 0 <= k < s1.len() && s1[k] == x;
                assert(s[k + 1] == x);
                assert(s.contains(x));
                let m = choose|m: int| 0 <= m < t.len() && t[m] == x;
                lemma_lex_asymmetric(s[0], s[k + 1]);
                assert(t1[m - 1] == x);
            }
            if t1.contains(x) {
                let k = choose|k: int| 0 <= k < t1.len() && t1[k] == x;
                assert(t[k + 1] == x);
                assert(t.contains(x));
                let m = choose|m: int| 0 <= m < s.len() && s[m] == x;
                lemma_lex_asymmetric(t[0], t[k + 1]);
                assert(s1[m - 1] == x);
            }
        }
        assert(strictly_ascending(s1)) by {
            assert forall|p: int, q: int| 0 <= p < q < s1.len() implies lex_lt(s1[p], s1[q]) by {
                assert(s1[p] == s[p + 1] && s1[q] == s[q + 1]);
            }
        }
        assert(strictly_ascending(t1)) by {
            assert forall|p: int, q: int| 0 <= p < q < t1.len() implies lex_lt(t1[p], t1[q]) by {
                assert(t1[p] == t[p + 1] && t1[q] == t[q + 1]);
            }
        }
        lemma_ascending_unique(s1, t1);
        assert(s =~= seq![s[0]] + s1);
        assert(t =~= seq![t[0]] + t1);
    }
}

/// A set has one ascending listing at most.
pub proof fn lemma_ascending_listing(out: Seq<Seq<u8>>, set: Set<Seq<u8>>)
    requires
        lists_in_order(out, set),
    ensures
        ascending_listing(set) == out,
{
    lemma_ascending_unique(ascending_listing(set), out);
}

/// The ascending listing `out` with `x` put in its place, unless it is there
/// already.
pub open spec fn with_element(out: Seq<Seq<u8>>, x: Seq<u8>) -> Seq<Seq<u8>>
    decreases out.len(),
{
    if out.len() == 0 {
        seq![x]
    } else if lex_lt(out.last(), x) {
        out.push(x)
    } else if out.last() == x {
        out
    } else {
        with_element(out.drop_last(), x).push(out.last())
    }
}

/// Putting an element in its place gives the ascending listing of the set
/// with that element.
pub proof fn lemma_with_element(out: Seq<Seq<u8>>, set: Set<Seq<u8>>, x: Seq<u8>)
    requires
        lists_in_order(out, set),
    ensures
        lists_in_order(with_element(out, x), set.insert(x)),
        with_element(out, x).len() >= 1,
        with_element(out, x).last() == if out.len() > 0 && lex_lt(x, out.last()) {
            out.last()
        } else {
            x
        },
    decreases out.len(),
{
    let more = with_element(out, x);
    if out.len() == 0 {
        assert forall|c: Seq<u8>| more.contains(c) <==> set.insert(x).contains(c) by {
            if c == x {
                assert(more[0] == c);
            }
            if set.contains(c) {
                assert(out.contains(c));
            }
        }
    } else if lex_lt(out.last(), x) {
        lemma_lex_asymmetric(out.last(), x);
        assert forall|i: int, j: int| 0 <= i < j < more.len() implies lex_lt(
            #[trigger] more[i],
            #[trigger] more[j],
        ) by {
            if j == out.len() && i < out.len() - 1 {
                lemma_lex_transitive(out[i], out.last(), x);
            }
        }
        assert forall|c: Seq<u8>| more.contains(c) <==> set.insert(x).contains(c) by {
            if c == x {
                assert(more[out.len() as int] == c);
            }
            if set.contains(c) {
                let k = choose|k: int| 0 <= k < out.len() && out[k] == c;
                assert(more[k] == c);
            }
            if more.contains(c) {
                let k = choose|k: int| 0 <= k < more.len() && more[k] == c;
                if k < out.len() {
                    assert(out[k] == c);
                    assert(out.contains(c));
                }
            }
        }
    } else if out.last() == x {
        assert(out.contains(x));
        assert(set.insert(x) =~= set);
        lemma_lex_irreflexive(x);
    } else {
        lemma_lex_total(out.last(), x);
        let front = out.drop_last();
        let front_set = set.remove(out.last());
        assert(lists_in_order(front, front_set)) by {
            assert forall|i: int, j: int| 0 <= i < j < front.len() implies lex_lt(
                #[trigger] front[i],
                #[trigger] front[j],
            ) by {
                assert(front[i] == out[i] && front[j] == out[j]);
            }
            assert forall|c: Seq<u8>| front.contains(c) <==> front_set.contains(c) by {
                if front.contains(c) {
                    let k = choose|k: int| 0 <= k < front.len() && front[k] == c;
                    assert(out[k] == c);
                    assert(out.contains(c));
                    lemma_lex_asymmetric(out[k], out.last());
                }
                if front_set.contains(c) {
                    assert(out.contains(c));
                    let k = choose|k: int| 0 <= k < out.len() && out[k] == c;
                    assert(front[k] == c);
                }
            }
        }
        lemma_with_element(front, front_set, x);
        let inner = with_element(front, x);
        assert(lex_lt(inner.last(), out.last())) by {
            if front.len() > 0 && lex_lt(x, front.last()) {
                assert(front.last() == out[out.len() - 2]);
            }
        }
        assert forall|i: int, j: int| 0 <= i < j < more.len() implies lex_lt(
            #[trigger] more[i],
            #[trigger] more[j],
        ) by {
            if j == inner.len() {
                if i < inner.len() - 1 {
                    lemma_lex_transitive(inner[i], inner.last(), out.last());
                }
            } else {
                assert(more[i] == inner[i] && more[j] == inner[j]);
            }
        }
        assert forall|c: Seq<u8>| more.contains(c) <==> set.insert(x).contains(c) by {
            if more.contains(c) {
                let k = choose|k: int| 0 <= k < more.len() && more[k] == c;
                if k < inner.len() {
                    assert(inner[k] == c);
                    assert(inner.contains(c));
                } else {
                    assert(out.contains(out.last()));
                }
            }
            if set.insert(x).contains(c) {
                if c == out.last() {
                    assert(more[inner.len() as int] == c);
                } else {
                    assert(front_set.insert(x).contains(c));
                    assert(inner.contains(c));
                    let k = choose|k: int| 0 <= k < inner.len() && inner[k] == c;
                    assert(more[k] == c);
                }
            }
        }
    }
}

/// Compares two byte strings lexicographically.
pub fn compare(a: &[u8], b: &[u8]) -> (r: Rank)
    ensures
        r == rank_of(a@, b@),
{
    let mut i: usize = 0;
    while i < a.len() && i < b.len()
        invariant
            i <= a.len(),
            i <= b.len(),
            forall|k: int| 0 <= k < i ==> a@[k] == b@[k],
        decreases a.len() - i,
    {
        if a[i] != b[i] {
            proof {
                lemma_lex_skip_common(a@, b@, i as int);
                if a@ == b@ {
                }
            }
            return if a[i] < b[i] {
                Rank::Before
            } else {
                Rank::After
            };
        }
        i += 1;
    }
    proof {
        lemma_lex_skip_common(a@, b@, i as int);
        lemma_lex_skip_common(b@, a@, i as int);
        if i == a.len() && i == b.len() {
            assert(a@ =~= b@);
            lemma_lex_irreflexive(a@);
        }
    }
    if i < b.len() {
        Rank::Before
    } else if i < a.len() {
        Rank::After
    } else {
        Rank::Same
    }
}

} // verus!
