//! The candidate extractor: one forward pass over a blob that finds the
//! maximal candidate spans and collects them as a set.

use crate::classifier::classify;
use crate::classifier::Effect;
use crate::classifier::effect_of;
use crate::classifier::is_start_byte;
use crate::classifier::starts_candidate;
use crate::sorted_set::SortedSet;
use crate::text::is_ascii_bytes;
use crate::text::is_utf8;
use crate::text::lemma_ascii_is_utf8;
use vstd::prelude::*;
use vstd::slice::slice_subrange;
use vstd::utf8::valid_utf8;

verus! {

/// What the scan knows after a prefix of the blob.
pub enum Scan {
    /// No candidate is open.
    Idle,
    /// A candidate is open: it began at `start` and stands inside `depth`
    /// unmatched brackets and, where `quote` is set, inside a quoted span.
    Open { start: int, depth: nat, quote: Option<u8> },
}

/// The scan after byte `b` at position `i`, given the scan before it.
pub open spec fn step(before: Scan, i: int, b: u8, extra: Seq<u8>) -> Scan {
    match before {
        Scan::Idle => if is_start_byte(b) {
            Scan::Open { start: i, depth: 0, quote: None }
        } else {
            Scan::Idle
        },
        Scan::Open { start, depth, quote } => match effect_of(b, depth, quote, extra) {
            Effect::Continue => before,
            Effect::OpenBracket => Scan::Open { start, depth: depth + 1, quote },
            Effect::CloseBracket => Scan::Open { start, depth: (depth - 1) as nat, quote },
            Effect::OpenQuote => Scan::Open { start, depth, quote: Some(b) },
            Effect::CloseQuote => Scan::Open { start, depth, quote: None },
            Effect::Close => Scan::Idle,
        },
    }
}

/// The scan after the first `n` bytes of `blob`.
pub open spec fn scan(blob: Seq<u8>, n: int, extra: Seq<u8>) -> Scan
    decreases n,
{
    if n <= 0 {
        Scan::Idle
    } else {
        step(scan(blob, n - 1, extra), n - 1, blob[n - 1], extra)
    }
}

/// A candidate ends just before position `e`: one is open there, and the
/// byte at `e` closes it or the blob is over.
pub open spec fn ends_at(blob: Seq<u8>, extra: Seq<u8>, e: int) -> bool {
    &&& 0 <= e <= blob.len()
    &&& scan(blob, e, extra) is Open
    &&& (e == blob.len() || scan(blob, e + 1, extra) is Idle)
}

/// The bytes of the candidate that is open after the first `e` bytes.
pub open spec fn span_before(blob: Seq<u8>, extra: Seq<u8>, e: int) -> Seq<u8> {
    blob.subrange(scan(blob, e, extra)->start, e)
}

/// The candidates of a blob: its maximal candidate spans, one that the end of
/// the blob cuts short included. A span counts only where its bytes are
/// well-formed UTF-8, so that every candidate is text.
pub open spec fn candidates(blob: Seq<u8>, extra: Seq<u8>) -> Set<Seq<u8>> {
    Set::new(
        |c: Seq<u8>|
            valid_utf8(c) && exists|e: int| #[trigger]
                ends_at(blob, extra, e) && c == span_before(blob, extra, e),
    )
}

/// The candidates that end before position `n`.
pub open spec fn candidates_before(blob: Seq<u8>, extra: Seq<u8>, n: int) -> Set<Seq<u8>> {
    Set::new(
        |c: Seq<u8>|
            valid_utf8(c) && exists|e: int|
                e < n && #[trigger] ends_at(blob, extra, e) && c == span_before(blob, extra, e),
    )
}

/// An open candidate began before the scanned position with a byte that is no
/// bracket, and quotes are open only inside brackets.
pub proof fn lemma_scan_bounds(blob: Seq<u8>, n: int, extra: Seq<u8>)
    requires
        0 <= n <= blob.len(),
    ensures
        scan(blob, n, extra) matches Scan::Open { start, depth, quote } ==> 0 <= start < n
            && is_start_byte(blob[start]) && depth < n - start && (depth == 0 ==> quote is None),
    decreases n,
{
    if n > 0 {
        lemma_scan_bounds(blob, n - 1, extra);
    }
}

/// Every candidate is a text that is not empty and begins with a byte at
/// which candidates may begin.
pub proof fn lemma_candidate_shape(blob: Seq<u8>, extra: Seq<u8>, c: Seq<u8>)
    requires
        candidates(blob, extra).contains(c),
    ensures
        valid_utf8(c),
        c.len() > 0,
        is_start_byte(c[0]),
{
    let e = choose|e: int| #[trigger] ends_at(blob, extra, e) && c == span_before(blob, extra, e);
    lemma_scan_bounds(blob, e, extra);
}

/// Configuration of the extractor.
pub struct ExtractorOptions {
    /// Bytes that carry a candidate on outside brackets, beside the baseline
    /// table: an embedding language may need delimiters of its own to count
    /// as part of a token.
    pub extra_continue: Vec<u8>,
}

impl Default for ExtractorOptions {
    /// The baseline table alone.
    fn default() -> (o: Self)
        ensures
            o.extra_continue@ == Seq::<u8>::empty(),
    {
        ExtractorOptions { extra_continue: Vec::new() }
    }
}

/// The candidate extractor.
pub struct Extractor;

impl Extractor {
    /// Adds the span `blob[start..end]` to `found` where it is text. A span
    /// that is known to be ASCII is text and is not looked through again.
    fn accept(found: &mut SortedSet, blob: &[u8], start: usize, end: usize, plain: bool)
        requires
            old(found).wf(),
            start <= end <= blob@.len(),
            plain ==> is_ascii_bytes(blob@.subrange(start as int, end as int)),
        ensures
            final(found).wf(),
            final(found).elements() == if valid_utf8(blob@.subrange(start as int, end as int)) {
                old(found).elements().insert(blob@.subrange(start as int, end as int))
            } else {
                old(found).elements()
            },
    {
        let span = slice_subrange(blob, start, end);
        proof {
            if plain {
                lemma_ascii_is_utf8(span@);
            }
        }
        if plain || is_utf8(span) {
            found.insert(span);
        }
    }

    /// Scans `blob` once from left to right and returns the set of its
    /// candidates.
    pub fn unique(blob: &[u8], options: &ExtractorOptions) -> (found: SortedSet)
        ensures
            found.wf(),
            found.elements() == candidates(blob@, options.extra_continue@),
    {
        let extra = options.extra_continue.as_slice();
        let mut found = SortedSet::new();
        let mut open: bool = false;
        let mut start: usize = 0;
        let mut depth: usize = 0;
        let mut quote: Option<u8> = None;
        let mut plain: bool = true;
        let mut i: usize = 0;
        proof {
            assert(found.elements() =~= candidates_before(blob@, extra@, 0)) by {
                assert forall|e: int| e < 0 implies !ends_at(blob@, extra@, e) by {}
            }
        }
        while i < blob.len()
            invariant
                i <= blob@.len(),
                extra@ == options.extra_continue@,
                found.wf(),
                found.elements() == candidates_before(blob@, extra@, i as int),
                scan(blob@, i as int, extra@) == if open {
                    Scan::Open { start: start as int, depth: depth as nat, quote }
                } else {
                    Scan::Idle
                },
                open ==> start < i && depth < i - start,
                open && plain ==> is_ascii_bytes(blob@.subrange(start as int, i as int)),
            decreases blob@.len() - i,
        {
            let b = blob[i];
            let ghost before = found.elements();
            let ghost closes = open && effect_of(b, depth as nat, quote, extra@) == Effect::Close;
            let ghost span = blob@.subrange(start as int, i as int);
            if open {
                match classify(b, depth, quote, extra) {
                    Effect::Continue => {},
                    Effect::OpenBracket => {
                        depth += 1;
                    },
                    Effect::CloseBracket => {
                        depth -= 1;
                    },
                    Effect::OpenQuote => {
                        quote = Some(b);
                    },
                    Effect::CloseQuote => {
                        quote = None;
                    },
                    Effect::Close => {
                        Self::accept(&mut found, blob, start, i, plain);
                        open = false;
                    },
                }
            } else if starts_candidate(b) {
                open = true;
                start = i;
                depth = 0;
                quote = None;
                plain = true;
            }
            if open {
                plain = plain && b < 0x80;
            }
            proof {
                let n = i as int;
                if open && plain {
                    let longer = blob@.subrange(start as int, n + 1);
                    assert forall|k: int| 0 <= k < longer.len() implies #[trigger] longer[k]
                        < 0x80 by {
                        if k < n - start {
                            assert(longer[k] == blob@.subrange(start as int, n)[k]);
                        }
                    }
                }
                assert(scan(blob@, n + 1, extra@) == step(scan(blob@, n, extra@), n, b, extra@));
                assert(ends_at(blob@, extra@, n) == closes);
                assert(closes ==> span_before(blob@, extra@, n) == span);
                assert(found.elements() =~= candidates_before(blob@, extra@, n + 1)) by {
                    assert forall|c: Seq<u8>|
                        candidates_before(blob@, extra@, n + 1).contains(c) <==> (before.contains(c)
                            || (closes && c == span && valid_utf8(c))) by {
                        if candidates_before(blob@, extra@, n + 1).contains(c) {
                            let e = choose|e: int|
                                e < n + 1 && #[trigger] ends_at(blob@, extra@, e) && c
                                    == span_before(blob@, extra@, e);
                            if e < n {
                                assert(candidates_before(blob@, extra@, n).contains(c));
                            }
                        }
                        if before.contains(c) {
                            let e = choose|e: int|
                                e < n && #[trigger] ends_at(blob@, extra@, e) && c == span_before(
                                    blob@,
                                    extra@,
                                    e,
                                );
                            assert(e < n + 1);
                        }
                        if closes && c == span && valid_utf8(c) {
                            assert(ends_at(blob@, extra@, n));
                        }
                    }
                }
            }
            i += 1;
        }
        let ghost before = found.elements();
        let ghost span = blob@.subrange(start as int, i as int);
        if open {
            Self::accept(&mut found, blob, start, i, plain);
        }
        proof {
            let n = i as int;
            assert(ends_at(blob@, extra@, n) == open);
            assert(candidates(blob@, extra@) =~= candidates_before(blob@, extra@, n + 1)) by {
                assert forall|c: Seq<u8>|
                    candidates(blob@, extra@).contains(c) implies candidates_before(
                    blob@,
                    extra@,
                    n + 1,
                ).contains(c) by {
                    let e = choose|e: int| #[trigger]
                        ends_at(blob@, extra@, e) && c == span_before(blob@, extra@, e);
                    assert(e < n + 1);
                }
            }
            assert(found.elements() =~= candidates_before(blob@, extra@, n + 1)) by {
                assert forall|c: Seq<u8>|
                    candidates_before(blob@, extra@, n + 1).contains(c) <==> (before.contains(c)
                        || (open && c == span && valid_utf8(c))) by {
                    if candidates_before(blob@, extra@, n + 1).contains(c) {
                        let e = choose|e: int|
                            e < n + 1 && #[trigger] ends_at(blob@, extra@, e) && c == span_before(
                                blob@,
                                extra@,
                                e,
                            );
                        if e < n {
                            assert(candidates_before(blob@, extra@, n).contains(c));
                        }
                    }
                    if before.contains(c) {
                        let e = choose|e: int|
                            e < n && #[trigger] ends_at(blob@, extra@, e) && c == span_before(
                                blob@,
                                extra@,
                                e,
                            );
                        assert(e < n + 1);
                    }
                    if open && c == span && valid_utf8(c) {
                        assert(ends_at(blob@, extra@, n));
                    }
                }
            }
        }
        found
    }
}

} // verus!
