//! What the key of a path means: paths with the same components have the
//! same key, and keys compare byte by byte as paths do component by
//! component.

use crate::classifier::SLASH;
use crate::order::lemma_lex_asymmetric;
use crate::order::lemma_lex_skip_common;
use crate::order::lemma_lex_total;
use crate::order::lex_lt;
use crate::paths::component_key;
use crate::paths::file_name_of;
use crate::paths::has_loose_end;
use crate::paths::last_index_of;
use crate::paths::last_segment;
use crate::paths::lemma_last_index_of;
use crate::paths::lemma_trimmed;
use crate::paths::parent_of;
use crate::paths::path_key;
use crate::paths::raised;
use crate::paths::rank_of_segment;
use crate::paths::root_key;
use crate::paths::same_path;
use crate::paths::trimmed;
use crate::paths::RANK_NAME;
use crate::paths::RANK_ROOT;
use vstd::prelude::*;

verus! {

/// The components of a path in order, the root written as `/`. A leading
/// `.` and every `..` are components; separators that are repeated or trail
/// and other segments `.` are none.
pub open spec fn components_of(path: Seq<u8>) -> Seq<Seq<u8>>
    decreases path.len(),
{
    let start = last_index_of(path, SLASH) + 1;
    if has_loose_end(path) {
        components_of(path.drop_last())
    } else if path.len() == 0 {
        Seq::empty()
    } else if 0 <= start < path.len() {
        components_of(path.subrange(0, start)).push(path.subrange(start, path.len() as int))
    } else {
        seq![seq![SLASH]]
    }
}

/// Whether `c` can be a component: the root, or a segment that is not empty
/// and holds no separator.
pub open spec fn is_component(c: Seq<u8>) -> bool {
    c == seq![SLASH] || (c.len() > 0 && forall|i: int| 0 <= i < c.len() ==> c[i] != SLASH)
}

/// The rank of a component: the root, then `.`, then `..`, then names.
pub open spec fn rank_of_component(c: Seq<u8>) -> u8 {
    if c == seq![SLASH] {
        RANK_ROOT
    } else {
        rank_of_segment(c)
    }
}

/// Whether component `c` comes before component `d`: by rank, and among
/// names by their bytes.
pub open spec fn component_before(c: Seq<u8>, d: Seq<u8>) -> bool {
    rank_of_component(c) < rank_of_component(d) || (rank_of_component(c) == rank_of_component(d)
        && lex_lt(c, d))
}

/// Whether path `a` comes before path `b`, both given by their components:
/// the first component that differs decides, and a path comes before the
/// paths below it.
pub open spec fn path_before(a: Seq<Seq<u8>>, b: Seq<Seq<u8>>) -> bool
    decreases a.len(),
{
    if b.len() == 0 {
        false
    } else if a.len() == 0 {
        true
    } else if a[0] != b[0] {
        component_before(a[0], b[0])
    } else {
        path_before(a.drop_first(), b.drop_first())
    }
}

/// The key of a component.
pub open spec fn key_of_component(c: Seq<u8>) -> Seq<u8> {
    if c == seq![SLASH] {
        root_key()
    } else {
        component_key(c)
    }
}

/// The keys of components, one after the other.
pub open spec fn key_of_components(components: Seq<Seq<u8>>) -> Seq<u8>
    decreases components.len(),
{
    if components.len() == 0 {
        Seq::empty()
    } else {
        key_of_components(components.drop_last()) + key_of_component(components.last())
    }
}

/// The key of a path is made of the keys of its components, and each of its
/// components can be one.
pub proof fn lemma_key_by_components(path: Seq<u8>)
    ensures
        path_key(path) == key_of_components(components_of(path)),
        forall|k: int|
            0 <= k < components_of(path).len() ==> is_component(#[trigger] components_of(path)[k]),
    decreases path.len(),
{
    let start = last_index_of(path, SLASH) + 1;
    if has_loose_end(path) {
        lemma_key_by_components(path.drop_last());
    } else if path.len() == 0 {
    } else if 0 <= start < path.len() {
        let front = path.subrange(0, start);
        let name = path.subrange(start, path.len() as int);
        lemma_key_by_components(front);
        lemma_last_index_of(path, SLASH);
        let all = components_of(path);
        assert(all.drop_last() =~= components_of(front));
        assert(all.last() == name);
        assert(is_component(name)) by {
            assert forall|i: int| 0 <= i < name.len() implies name[i] != SLASH by {
                assert(name[i] == path[start + i]);
            }
        }
        assert(name != seq![SLASH]) by {
            if name == seq![SLASH] {
                assert(name[0] == SLASH);
            }
        }
        assert forall|k: int| 0 <= k < all.len() implies is_component(#[trigger] all[k]) by {
            if k < all.len() - 1 {
                assert(all[k] == components_of(front)[k]);
            }
        }
    } else {
        let all = components_of(path);
        assert(all.drop_last() =~= Seq::<Seq<u8>>::empty());
        assert(key_of_components(all.drop_last()) =~= Seq::<u8>::empty());
        assert(Seq::<u8>::empty() + root_key() =~= root_key());
    }
}

/// A path and the path without its loose end have the same components.
pub proof fn lemma_components_of_trimmed(path: Seq<u8>)
    ensures
        components_of(path) == components_of(trimmed(path)),
    decreases path.len(),
{
    if has_loose_end(path) {
        lemma_components_of_trimmed(path.drop_last());
    }
}

/// The file name of a path is its last component where that is a name, and
/// the parent of a path has its components but the last. The paths without
/// a parent are those without a component and those that are only the root.
pub proof fn lemma_parts_by_components(path: Seq<u8>)
    ensures
        ({
            let all = components_of(path);
            &&& file_name_of(path) == if all.len() > 0 && rank_of_component(all.last())
                == RANK_NAME {
                Some(all.last())
            } else {
                None
            }
            &&& parent_of(path) is None <==> (all.len() == 0 || all.last() == seq![SLASH])
            &&& parent_of(path) matches Some(dir) ==> components_of(dir) == all.drop_last()
        }),
{
    lemma_components_of_trimmed(path);
    lemma_trimmed(path);
    let whole = trimmed(path);
    let start = last_index_of(whole, SLASH) + 1;
    lemma_last_index_of(whole, SLASH);
    lemma_key_by_components(whole);
    let all = components_of(whole);
    if whole.len() == 0 {
        assert(last_segment(whole) =~= Seq::<u8>::empty());
    } else if 0 <= start < whole.len() {
        let front = whole.subrange(0, start);
        let name = whole.subrange(start, whole.len() as int);
        assert(all.last() == name);
        assert(all.drop_last() =~= components_of(front));
        lemma_components_of_trimmed(front);
        assert(name != seq![SLASH]) by {
            if name == seq![SLASH] {
                assert(name[0] == whole[start]);
            }
        }
    } else {
        assert(last_segment(whole) =~= Seq::<u8>::empty());
        assert(all.last() == seq![SLASH]);
    }
}

/// The key of components begins with the key of the first.
proof fn lemma_key_front(components: Seq<Seq<u8>>)
    requires
        components.len() > 0,
    ensures
        key_of_components(components) == key_of_component(components[0]) + key_of_components(
            components.drop_first(),
        ),
    decreases components.len(),
{
    let front = components.drop_last();
    let rest = components.drop_first();
    if components.len() == 1 {
        assert(key_of_components(front) =~= Seq::<u8>::empty());
        assert(key_of_components(rest) =~= Seq::<u8>::empty());
        assert(key_of_components(components) =~= key_of_component(components[0])
            + key_of_components(rest));
    } else {
        lemma_key_front(front);
        assert(front.drop_first() =~= rest.drop_last());
        assert(front[0] == components[0]);
        assert(rest.last() == components.last());
        assert(key_of_components(components) =~= key_of_component(components[0])
            + key_of_components(rest));
    }
}

/// The bytes of a name as they stand in a key, with 0 to end them and `x`
/// behind.
spec fn raised_then(c: Seq<u8>, x: Seq<u8>) -> Seq<u8> {
    Seq::new(c.len(), |i: int| raised(c[i])) + seq![0u8] + x
}

/// Raising the bytes of two segments keeps their order, and behind equal
/// segments what follows decides.
proof fn lemma_raised_order(c: Seq<u8>, d: Seq<u8>, x: Seq<u8>, y: Seq<u8>)
    requires
        forall|i: int| 0 <= i < c.len() ==> c[i] != SLASH,
        forall|i: int| 0 <= i < d.len() ==> d[i] != SLASH,
    ensures
        lex_lt(raised_then(c, x), raised_then(d, y)) == if c == d {
            lex_lt(x, y)
        } else {
            lex_lt(c, d)
        },
    decreases c.len(),
{
    let tc = raised_then(c, x);
    let td = raised_then(d, y);
    if c.len() == 0 && d.len() == 0 {
        assert(c =~= d);
        assert(tc.drop_first() =~= x);
        assert(td.drop_first() =~= y);
        assert(tc[0] == 0 && td[0] == 0);
    } else if c.len() == 0 {
        assert(tc[0] == 0);
        assert(td[0] == raised(d[0]));
    } else if d.len() == 0 {
        assert(td[0] == 0);
        assert(tc[0] == raised(c[0]));
    } else {
        assert(tc[0] == raised(c[0]));
        assert(td[0] == raised(d[0]));
        if c[0] == d[0] {
            let c1 = c.drop_first();
            let d1 = d.drop_first();
            assert forall|i: int| 0 <= i < c1.len() implies c1[i] != SLASH by {
                assert(c1[i] == c[i + 1]);
            }
            assert forall|i: int| 0 <= i < d1.len() implies d1[i] != SLASH by {
                assert(d1[i] == d[i + 1]);
            }
            lemma_raised_order(c1, d1, x, y);
            assert(tc.drop_first() =~= raised_then(c1, x));
            assert(td.drop_first() =~= raised_then(d1, y));
            if c1 == d1 {
                assert(c =~= seq![c[0]] + c1);
                assert(d =~= seq![d[0]] + d1);
            }
        }
    }
}

/// The keys of two components compare as the components do, and behind
/// equal components what follows decides.
proof fn lemma_component_key_order(c: Seq<u8>, d: Seq<u8>, x: Seq<u8>, y: Seq<u8>)
    requires
        is_component(c),
        is_component(d),
    ensures
        lex_lt(key_of_component(c) + x, key_of_component(d) + y) == if c == d {
            lex_lt(x, y)
        } else {
            component_before(c, d)
        },
{
    let kc = key_of_component(c) + x;
    let kd = key_of_component(d) + y;
    assert(kc[0] == rank_of_component(c));
    assert(kd[0] == rank_of_component(d));
    if c == d {
        let n = key_of_component(c).len() as int;
        assert forall|k: int| 0 <= k < n implies kc[k] == kd[k] by {}
        lemma_lex_skip_common(kc, kd, n);
        assert(kc.skip(n) =~= x);
        assert(kd.skip(n) =~= y);
    } else if rank_of_component(c) == rank_of_component(d) {
        // Two different components of one rank are names.
        assert(rank_of_component(c) == RANK_NAME);
        assert(kc.drop_first() =~= raised_then(c, x));
        assert(kd.drop_first() =~= raised_then(d, y));
        lemma_raised_order(c, d, x, y);
    }
}

/// Keys compare byte by byte as paths do component by component.
pub proof fn lemma_keys_order_components(a: Seq<Seq<u8>>, b: Seq<Seq<u8>>)
    requires
        forall|k: int| 0 <= k < a.len() ==> is_component(#[trigger] a[k]),
        forall|k: int| 0 <= k < b.len() ==> is_component(#[trigger] b[k]),
    ensures
        lex_lt(key_of_components(a), key_of_components(b)) == path_before(a, b),
    decreases a.len(),
{
    if b.len() == 0 {
    } else if a.len() == 0 {
        lemma_key_front(b);
        assert(key_of_components(b).len() > 0);
    } else {
        lemma_key_front(a);
        lemma_key_front(b);
        let a1 = a.drop_first();
        let b1 = b.drop_first();
        assert forall|k: int| 0 <= k < a1.len() implies is_component(#[trigger] a1[k]) by {
            assert(a1[k] == a[k + 1]);
        }
        assert forall|k: int| 0 <= k < b1.len() implies is_component(#[trigger] b1[k]) by {
            assert(b1[k] == b[k + 1]);
        }
        lemma_component_key_order(a[0], b[0], key_of_components(a1), key_of_components(b1));
        if a[0] == b[0] {
            lemma_keys_order_components(a1, b1);
        }
    }
}

/// Of two different paths one comes before the other.
pub proof fn lemma_path_before_total(a: Seq<Seq<u8>>, b: Seq<Seq<u8>>)
    requires
        forall|k: int| 0 <= k < a.len() ==> is_component(#[trigger] a[k]),
        forall|k: int| 0 <= k < b.len() ==> is_component(#[trigger] b[k]),
    ensures
        a == b || path_before(a, b) || path_before(b, a),
    decreases a.len(),
{
    if a.len() == 0 || b.len() == 0 {
        if a.len() == 0 && b.len() == 0 {
            assert(a =~= b);
        }
    } else if a[0] != b[0] {
        lemma_lex_total(a[0], b[0]);
    } else {
        let a1 = a.drop_first();
        let b1 = b.drop_first();
        assert forall|k: int| 0 <= k < a1.len() implies is_component(#[trigger] a1[k]) by {
            assert(a1[k] == a[k + 1]);
        }
        assert forall|k: int| 0 <= k < b1.len() implies is_component(#[trigger] b1[k]) by {
            assert(b1[k] == b[k + 1]);
        }
        lemma_path_before_total(a1, b1);
        if a1 == b1 {
            assert(a =~= seq![a[0]] + a1);
            assert(b =~= seq![b[0]] + b1);
        }
    }
}

/// The order of keys is the order of paths: the key of `p` comes before the
/// key of `q` exactly where `p` comes before `q` component by component.
pub proof fn lemma_key_order_is_path_order(p: Seq<u8>, q: Seq<u8>)
    ensures
        lex_lt(path_key(p), path_key(q)) == path_before(components_of(p), components_of(q)),
{
    lemma_key_by_components(p);
    lemma_key_by_components(q);
    lemma_keys_order_components(components_of(p), components_of(q));
}

/// Two ways of writing are the same path exactly where they have the same
/// components.
pub proof fn lemma_same_path_same_components(p: Seq<u8>, q: Seq<u8>)
    ensures
        same_path(p, q) == (components_of(p) == components_of(q)),
{
    lemma_key_by_components(p);
    lemma_key_by_components(q);
    let a = components_of(p);
    let b = components_of(q);
    if a != b {
        lemma_path_before_total(a, b);
        lemma_keys_order_components(a, b);
        lemma_keys_order_components(b, a);
        if path_before(a, b) {
            lemma_lex_asymmetric(path_key(p), path_key(q));
        } else {
            lemma_lex_asymmetric(path_key(q), path_key(p));
        }
    }
}

} // verus!
