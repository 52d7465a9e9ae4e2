//! Cutting a blob in two: where the cut falls between candidates, the two
//! parts hold the candidates of the whole.

use crate::classifier::is_continue_byte;
use crate::extractor::candidates;
use crate::extractor::ends_at;
use crate::extractor::lemma_scan_bounds;
use crate::extractor::scan;
use crate::extractor::Scan;
use crate::extractor::span_before;
use vstd::prelude::*;

verus! {

/// The scan `s` of a part that begins at position `n` of a whole, seen from
/// the whole.
pub open spec fn shifted(s: Scan, n: int) -> Scan {
    match s {
        Scan::Idle => Scan::Idle,
        Scan::Open { start, depth, quote } => Scan::Open { start: start + n, depth, quote },
    }
}

/// Whether the scan stands inside an unmatched bracket.
pub open spec fn in_brackets(s: Scan) -> bool {
    s matches Scan::Open { depth, .. } && depth > 0
}

/// The scan of a prefix does not depend on what follows it.
pub proof fn lemma_scan_prefix(left: Seq<u8>, right: Seq<u8>, k: int, extra: Seq<u8>)
    requires
        0 <= k <= left.len(),
    ensures
        scan(left + right, k, extra) == scan(left, k, extra),
    decreases k,
{
    if k > 0 {
        lemma_scan_prefix(left, right, k - 1, extra);
        assert((left + right)[k - 1] == left[k - 1]);
    }
}

/// After a prefix that leaves no candidate open, the scan goes on as if the
/// rest stood alone.
pub proof fn lemma_scan_suffix(left: Seq<u8>, right: Seq<u8>, k: int, extra: Seq<u8>)
    requires
        scan(left, left.len() as int, extra) is Idle,
        0 <= k <= right.len(),
    ensures
        scan(left + right, left.len() + k, extra) == shifted(
            scan(right, k, extra),
            left.len() as int,
        ),
    decreases k,
{
    if k == 0 {
        lemma_scan_prefix(left, right, left.len() as int, extra);
    } else {
        lemma_scan_suffix(left, right, k - 1, extra);
        assert((left + right)[left.len() + k - 1] == right[k - 1]);
    }
}

/// A blob cut where no candidate is open has the candidates of its two parts.
pub proof fn lemma_split_between_candidates(left: Seq<u8>, right: Seq<u8>, extra: Seq<u8>)
    requires
        scan(left, left.len() as int, extra) is Idle,
    ensures
        candidates(left + right, extra) == candidates(left, extra).union(candidates(right, extra)),
{
    let whole = left + right;
    let n = left.len() as int;
    assert forall|c: Seq<u8>| candidates(whole, extra).contains(c) implies candidates(
        left,
        extra,
    ).contains(c) || candidates(right, extra).contains(c) by {
        let e = choose|e: int| #[trigger]
            ends_at(whole, extra, e) && c == span_before(whole, extra, e);
        lemma_scan_bounds(whole, e, extra);
        if e <= n {
            lemma_scan_prefix(left, right, e, extra);
            assert(e < n);
            lemma_scan_prefix(left, right, e + 1, extra);
            assert(ends_at(left, extra, e));
            assert(span_before(left, extra, e) =~= c);
        } else {
            let k = e - n;
            lemma_scan_suffix(left, right, k, extra);
            if k < right.len() {
                lemma_scan_suffix(left, right, k + 1, extra);
            }
            assert(ends_at(right, extra, k));
            lemma_scan_bounds(right, k, extra);
            assert(span_before(right, extra, k) =~= c);
        }
    }
    assert forall|c: Seq<u8>| candidates(left, extra).contains(c) implies candidates(
        whole,
        extra,
    ).contains(c) by {
        let e = choose|e: int| #[trigger]
            ends_at(left, extra, e) && c == span_before(left, extra, e);
        lemma_scan_bounds(left, e, extra);
        lemma_scan_prefix(left, right, e, extra);
        assert(e < n);
        lemma_scan_prefix(left, right, e + 1, extra);
        assert(ends_at(whole, extra, e));
        assert(span_before(whole, extra, e) =~= c);
    }
    assert forall|c: Seq<u8>| candidates(right, extra).contains(c) implies candidates(
        whole,
        extra,
    ).contains(c) by {
        let k = choose|k: int| #[trigger]
            ends_at(right, extra, k) && c == span_before(right, extra, k);
        lemma_scan_bounds(right, k, extra);
        lemma_scan_suffix(left, right, k, extra);
        if k < right.len() {
            lemma_scan_suffix(left, right, k + 1, extra);
        }
        assert(ends_at(whole, extra, n + k));
        assert(span_before(whole, extra, n + k) =~= c);
    }
    assert(candidates(whole, extra) =~= candidates(left, extra).union(candidates(right, extra)));
}

/// A byte that closes candidates leaves none open, unless it stands inside
/// brackets.
pub proof fn lemma_idle_after_closing_byte(left: Seq<u8>, b: u8, extra: Seq<u8>)
    requires
        !is_continue_byte(b, extra),
        !in_brackets(scan(left, left.len() as int, extra)),
    ensures
        scan(left.push(b), left.len() as int + 1, extra) is Idle,
{
    lemma_scan_prefix(left, seq![b], left.len() as int, extra);
    assert(left + seq![b] =~= left.push(b));
    lemma_scan_bounds(left, left.len() as int, extra);
}

/// A closing byte at the end of a blob adds no candidate and takes none away.
pub proof fn lemma_closing_byte_at_end(left: Seq<u8>, b: u8, extra: Seq<u8>)
    requires
        !is_continue_byte(b, extra),
        !in_brackets(scan(left, left.len() as int, extra)),
    ensures
        candidates(left.push(b), extra) == candidates(left, extra),
{
    let whole = left.push(b);
    let n = left.len() as int;
    assert(left + seq![b] =~= whole);
    lemma_idle_after_closing_byte(left, b, extra);
    assert forall|e: int| 0 <= e <= n implies ends_at(whole, extra, e) == ends_at(
        left,
        extra,
        e,
    ) && (ends_at(left, extra, e) ==> span_before(whole, extra, e) == span_before(
        left,
        extra,
        e,
    )) by {
        lemma_scan_prefix(left, seq![b], e, extra);
        lemma_scan_bounds(left, e, extra);
        if e < n {
            lemma_scan_prefix(left, seq![b], e + 1, extra);
        }
        if ends_at(left, extra, e) {
            assert(span_before(whole, extra, e) =~= span_before(left, extra, e));
        }
    }
    assert forall|c: Seq<u8>| candidates(whole, extra).contains(c) implies candidates(
        left,
        extra,
    ).contains(c) by {
        let e = choose|e: int| #[trigger]
            ends_at(whole, extra, e) && c == span_before(whole, extra, e);
        assert(e <= n);
        assert(ends_at(left, extra, e));
    }
    assert forall|c: Seq<u8>| candidates(left, extra).contains(c) implies candidates(
        whole,
        extra,
    ).contains(c) by {
        let e = choose|e: int| #[trigger]
            ends_at(left, extra, e) && c == span_before(left, extra, e);
        assert(ends_at(whole, extra, e));
    }
    assert(candidates(whole, extra) =~= candidates(left, extra));
}

/// A blob cut just after a closing byte that stands outside brackets has the
/// candidates of its two parts.
pub proof fn lemma_split_after_closing_byte(
    left: Seq<u8>,
    b: u8,
    right: Seq<u8>,
    extra: Seq<u8>,
)
    requires
        !is_continue_byte(b, extra),
        !in_brackets(scan(left, left.len() as int, extra)),
    ensures
        candidates(left.push(b) + right, extra) == candidates(left.push(b), extra).union(
            candidates(right, extra),
        ),
{
    lemma_idle_after_closing_byte(left, b, extra);
    lemma_split_between_candidates(left.push(b), right, extra);
}

/// A blob cut just before a closing byte that stands outside brackets has the
/// candidates of its two parts.
pub proof fn lemma_split_before_closing_byte(
    left: Seq<u8>,
    b: u8,
    right: Seq<u8>,
    extra: Seq<u8>,
)
    requires
        !is_continue_byte(b, extra),
        !in_brackets(scan(left, left.len() as int, extra)),
    ensures
        candidates(left + (seq![b] + right), extra) == candidates(left, extra).union(
            candidates(seq![b] + right, extra),
        ),
{
    assert(left + (seq![b] + right) =~= left.push(b) + right);
    lemma_split_after_closing_byte(left, b, right, extra);
    lemma_closing_byte_at_end(left, b, extra);
    // The second part begins with the closing byte, which opens nothing.
    let head = seq![b];
    assert(scan(head, 1, extra) == crate::extractor::step(scan(head, 0, extra), 0, b, extra));
    lemma_split_between_candidates(head, right, extra);
    assert(candidates(head, extra) =~= Set::<Seq<u8>>::empty()) by {
        assert forall|c: Seq<u8>| !candidates(head, extra).contains(c) by {
            assert forall|e: int| !ends_at(head, extra, e) by {
                if e == 1 {
                } else if e == 0 {
                }
            }
        }
    }
    assert(candidates(head, extra).union(candidates(right, extra)) =~= candidates(right, extra));
}

} // verus!
