//! The extraction pipeline: sources become blobs, every blob is scanned, and
//! the candidates of all blobs come out once each, in ascending order.

use crate::classifier::is_continue_byte;
use crate::extractor::candidates;
use crate::extractor::Extractor;
use crate::extractor::ExtractorOptions;
use crate::extractor::scan;
use crate::order::lemma_ascending_unique;
use crate::order::lemma_lex_asymmetric;
use crate::order::lex_lt;
use crate::order::lists_in_order;
use crate::order::strictly_ascending;
use crate::sorted_set::listing;
use crate::sorted_set::SortedSet;
use crate::split::in_brackets;
use crate::split::lemma_split_after_closing_byte;
use crate::split::lemma_split_before_closing_byte;
use crate::text::string_from_utf8;
use crate::text::text_bytes;
use crate::text::texts_bytes;
use rayon::iter::IntoParallelRefIterator;
use rayon::iter::ParallelIterator;
use vstd::prelude::*;
use vstd::string::StrSliceExecFns;
use vstd::utf8::encode_utf8;
use vstd::utf8::encode_utf8_decode_utf8;
use vstd::utf8::valid_utf8;

verus! {

/// One source of content: a file to read or a literal text, with a hint at
/// the file extension. Exactly one of `file` and `content` is meant to be set.
#[derive(Debug, Clone)]
pub struct ChangedContent {
    pub file: Option<String>,
    pub content: Option<String>,
    pub extension: String,
}

/// The blob that a source stands for, given what reading its file gave
/// (`None` where the file could not be read or nothing was read).
///
/// A source with a file and no literal is the bytes read, or empty where the
/// read failed. A source with a literal and no file is the literal's bytes.
/// A source with both or neither is empty.
pub open spec fn blob_of(source: ChangedContent, loaded: Option<Seq<u8>>) -> Seq<u8> {
    if source.file is Some && source.content is None {
        match loaded {
            Some(bytes) => bytes,
            None => Seq::empty(),
        }
    } else if source.file is None && source.content is Some {
        encode_utf8(source.content->0@)
    } else {
        Seq::empty()
    }
}

/// What was read for source `i`: nothing where `loaded` has no such entry.
pub open spec fn loaded_at(loaded: Seq<Option<Vec<u8>>>, i: int) -> Option<Seq<u8>> {
    if 0 <= i < loaded.len() && loaded[i] is Some {
        Some(loaded[i]->0@)
    } else {
        None
    }
}

/// The blobs of all sources, in order.
pub open spec fn blobs_of(sources: Seq<ChangedContent>, loaded: Seq<Option<Vec<u8>>>) -> Seq<
    Seq<u8>,
> {
    Seq::new(sources.len(), |i: int| blob_of(sources[i], loaded_at(loaded, i)))
}

/// The candidates of all blobs together.
pub open spec fn all_candidates(blobs: Seq<Seq<u8>>, extra: Seq<u8>) -> Set<Seq<u8>> {
    Set::new(
        |c: Seq<u8>|
            exists|k: int|
                0 <= k < blobs.len() && #[trigger] candidates(blobs[k], extra).contains(c),
    )
}

impl ChangedContent {
    /// The path of the file that has to be read for this source, if any.
    pub fn file_to_read(&self) -> (path: Option<&String>)
        ensures
            path is Some <==> (self.file is Some && self.content is None),
            path is Some ==> *path->0 == self.file->0,
    {
        match (&self.file, &self.content) {
            (Some(path), None) => Some(path),
            _ => None,
        }
    }

    /// Resolves the source to its blob. `loaded` is what reading the file of
    /// `file_to_read` gave.
    pub fn to_blob(&self, loaded: Option<Vec<u8>>) -> (blob: Vec<u8>)
        ensures
            blob@ == blob_of(
                *self,
                match loaded {
                    Some(bytes) => Some(bytes@),
                    None => None,
                },
            ),
    {
        match (&self.file, &self.content) {
            (Some(_), None) => match loaded {
                Some(bytes) => bytes,
                None => Vec::new(),
            },
            (None, Some(text)) => text.as_str().as_bytes_vec(),
            _ => Vec::new(),
        }
    }
}

/// Resolves every source to its blob. `loaded[i]` is what reading the file of
/// source `i` gave; a source whose read failed, or for which `loaded` has no
/// entry, gives an empty blob and the others are not affected.
pub fn read_all_files(changed_content: Vec<ChangedContent>, loaded: Vec<Option<Vec<u8>>>) -> (blobs:
    Vec<Vec<u8>>)
    ensures
        listing(blobs@) == blobs_of(changed_content@, loaded@),
{
    let mut loaded = loaded;
    let ghost given = loaded@;
    let mut blobs: Vec<Vec<u8>> = Vec::new();
    let mut i: usize = 0;
    while i < changed_content.len()
        invariant
            i <= changed_content@.len(),
            loaded@.len() == given.len(),
            forall|k: int| i <= k < given.len() ==> loaded@[k] == given[k],
            blobs@.len() == i,
            forall|k: int|
                0 <= k < i ==> (#[trigger] blobs@[k])@ == blob_of(
                    changed_content@[k],
                    loaded_at(given, k),
                ),
        decreases changed_content@.len() - i,
    {
        let bytes = if i < loaded.len() {
            loaded[i].take()
        } else {
            None
        };
        blobs.push(changed_content[i].to_blob(bytes));
        i += 1;
    }
    assert(listing(blobs@) =~= blobs_of(changed_content@, given));
    blobs
}

/// How the blobs are scanned.
#[derive(Clone, Copy, PartialEq, Eq, Structural, Debug)]
pub enum Parsing {
    /// One blob after the other, on the calling thread.
    Sequential,
    /// All blobs at once, on the worker threads.
    Parallel,
}

/// How the files of the sources are read.
#[derive(Clone, Copy, PartialEq, Eq, Structural, Debug)]
pub enum IO {
    /// One file after the other, on the calling thread.
    Sequential,
    /// All files at once, on the worker threads.
    Parallel,
}

impl IO {
    /// The bit that stands for this choice in a strategy byte.
    pub fn bits(&self) -> (b: u8)
        ensures
            b == match *self {
                IO::Sequential => 0b0001u8,
                IO::Parallel => 0b0010u8,
            },
    {
        match self {
            IO::Sequential => 0b0001,
            IO::Parallel => 0b0010,
        }
    }

    /// The choice that a strategy byte makes, if it makes exactly one.
    pub fn from_bits(strategy: u8) -> (io: Option<IO>)
        ensures
            io == if strategy & 0b0011 == 0b0001 {
                Some(IO::Sequential)
            } else if strategy & 0b0011 == 0b0010 {
                Some(IO::Parallel)
            } else {
                None
            },
    {
        let chosen: u8 = strategy & 0b0011;
        if chosen == 0b0001 {
            Some(IO::Sequential)
        } else if chosen == 0b0010 {
            Some(IO::Parallel)
        } else {
            None
        }
    }
}

impl Parsing {
    /// The bit that stands for this choice in a strategy byte.
    pub fn bits(&self) -> (b: u8)
        ensures
            b == match *self {
                Parsing::Sequential => 0b0100u8,
                Parsing::Parallel => 0b1000u8,
            },
    {
        match self {
            Parsing::Sequential => 0b0100,
            Parsing::Parallel => 0b1000,
        }
    }

    /// The choice that a strategy byte makes, if it makes exactly one.
    pub fn from_bits(strategy: u8) -> (parsing: Option<Parsing>)
        ensures
            parsing == if strategy & 0b1100 == 0b0100 {
                Some(Parsing::Sequential)
            } else if strategy & 0b1100 == 0b1000 {
                Some(Parsing::Parallel)
            } else {
                None
            },
    {
        let chosen: u8 = strategy & 0b1100;
        if chosen == 0b0100 {
            Some(Parsing::Sequential)
        } else if chosen == 0b1000 {
            Some(Parsing::Parallel)
        } else {
            None
        }
    }
}

/// `sets` holds, for every blob in order, the set of its candidates.
pub open spec fn extracted_from(sets: Seq<SortedSet>, blobs: Seq<Seq<u8>>, extra: Seq<u8>) -> bool {
    &&& sets.len() == blobs.len()
    &&& forall|k: int|
        0 <= k < blobs.len() ==> (#[trigger] sets[k]).wf() && sets[k].elements() == candidates(
            blobs[k],
            extra,
        )
}

/// Scans every blob on rayon's worker threads, through `par_iter`, `map` and
/// `collect`. Collecting into a vector keeps the order of the items, so the
/// set at place `k` is what the extractor returns for blob `k`.
#[verifier::external_body]
fn extract_each_in_parallel(blobs: &Vec<Vec<u8>>, options: &ExtractorOptions) -> (sets: Vec<
    SortedSet,
>)
    ensures
        extracted_from(sets@, listing(blobs@), options.extra_continue@),
{
    blobs.par_iter().map(|blob| Extractor::unique(blob.as_slice(), options)).collect()
}

/// Scans every blob, one after the other.
fn extract_each(blobs: &Vec<Vec<u8>>, options: &ExtractorOptions) -> (sets: Vec<SortedSet>)
    ensures
        extracted_from(sets@, listing(blobs@), options.extra_continue@),
{
    let mut sets: Vec<SortedSet> = Vec::new();
    let mut k: usize = 0;
    while k < blobs.len()
        invariant
            k <= blobs@.len(),
            extracted_from(sets@, listing(blobs@).take(k as int), options.extra_continue@),
        decreases blobs@.len() - k,
    {
        let found = Extractor::unique(blobs[k].as_slice(), options);
        sets.push(found);
        k += 1;
    }
    assert(listing(blobs@).take(k as int) =~= listing(blobs@));
    sets
}

/// The union of the sets of all blobs.
fn merge_all(sets: &Vec<SortedSet>, Ghost(blobs): Ghost<Seq<Seq<u8>>>, Ghost(extra): Ghost<
    Seq<u8>,
>) -> (all: SortedSet)
    requires
        extracted_from(sets@, blobs, extra),
    ensures
        all.wf(),
        all.elements() == all_candidates(blobs, extra),
{
    let mut all = SortedSet::new();
    let mut k: usize = 0;
    assert(all.elements() =~= all_candidates(blobs.take(0), extra));
    while k < sets.len()
        invariant
            k <= sets@.len(),
            extracted_from(sets@, blobs, extra),
            all.wf(),
            all.elements() == all_candidates(blobs.take(k as int), extra),
        decreases sets@.len() - k,
    {
        let ghost before = all.elements();
        all = all.merge(&sets[k]);
        proof {
            let shorter = blobs.take(k as int);
            let longer = blobs.take(k + 1);
            assert forall|c: Seq<u8>|
                all_candidates(longer, extra).contains(c) <==> (before.contains(c) || candidates(
                    blobs[k as int],
                    extra,
                ).contains(c)) by {
                if all_candidates(longer, extra).contains(c) {
                    let j = choose|j: int|
                        0 <= j < longer.len() && #[trigger] candidates(longer[j], extra).contains(
                            c,
                        );
                    if j < k {
                        assert(candidates(shorter[j], extra).contains(c));
                    }
                }
                if before.contains(c) {
                    let j = choose|j: int|
                        0 <= j < shorter.len() && #[trigger] candidates(shorter[j], extra).contains(
                            c,
                        );
                    assert(candidates(longer[j], extra).contains(c));
                }
                if candidates(blobs[k as int], extra).contains(c) {
                    assert(candidates(longer[k as int], extra).contains(c));
                }
            }
            assert(all.elements() =~= all_candidates(longer, extra));
        }
        k += 1;
    }
    assert(blobs.take(k as int) =~= blobs);
    all
}

/// Turns the elements of a set of texts into strings, in ascending order.
fn into_strings(set: SortedSet) -> (out: Vec<String>)
    requires
        forall|k: int| 0 <= k < set@.len() ==> valid_utf8(#[trigger] set@[k]),
    ensures
        texts_bytes(out@) == set@,
{
    let ghost wanted = set@;
    let mut items = set.into_vec();
    let mut out: Vec<String> = Vec::new();
    let mut k: usize = 0;
    while k < items.len()
        invariant
            k <= items@.len(),
            items@.len() == wanted.len(),
            forall|j: int| k <= j < items@.len() ==> (#[trigger] items@[j])@ == wanted[j],
            forall|j: int| 0 <= j < wanted.len() ==> valid_utf8(#[trigger] wanted[j]),
            out@.len() == k,
            forall|j: int| 0 <= j < k ==> text_bytes(#[trigger] out@[j]) == wanted[j],
        decreases items@.len() - k,
    {
        let mut bytes: Vec<u8> = Vec::new();
        std::mem::swap(&mut bytes, &mut items[k]);
        // Every element is well-formed UTF-8, so the conversion gives a string.
        if let Some(text) = string_from_utf8(bytes) {
            out.push(text);
        }
        k += 1;
    }
    assert(texts_bytes(out@) =~= wanted);
    out
}

/// The candidates of the blobs as strings, each once, in ascending order of
/// their bytes. `parsing` chooses how the blobs are scanned and has no
/// influence on the result.
pub fn parse_all_blobs_with(blobs: Vec<Vec<u8>>, parsing: Parsing) -> (out: Vec<String>)
    ensures
        lists_in_order(texts_bytes(out@), all_candidates(listing(blobs@), Seq::empty())),
{
    let options = ExtractorOptions::default();
    let sets = match parsing {
        Parsing::Sequential => extract_each(&blobs, &options),
        Parsing::Parallel => extract_each_in_parallel(&blobs, &options),
    };
    let all = merge_all(&sets, Ghost(listing(blobs@)), Ghost(options.extra_continue@));
    proof {
        assert forall|k: int| 0 <= k < all@.len() implies valid_utf8(#[trigger] all@[k]) by {
            assert(all@.contains(all@[k]));
            assert(all.elements().contains(all@[k]));
        }
    }
    into_strings(all)
}

/// The candidates of the blobs as strings, each once, in ascending order of
/// their bytes. The blobs are scanned in parallel.
pub fn parse_all_blobs(blobs: Vec<Vec<u8>>) -> (out: Vec<String>)
    ensures
        lists_in_order(texts_bytes(out@), all_candidates(listing(blobs@), Seq::empty())),
{
    parse_all_blobs_with(blobs, Parsing::Parallel)
}

/// The candidates of all sources as strings, each once, in ascending order of
/// their bytes. `loaded[i]` is what reading the file of source `i` gave.
pub fn parse_candidate_strings_from_files(
    changed_content: Vec<ChangedContent>,
    loaded: Vec<Option<Vec<u8>>>,
) -> (out: Vec<String>)
    ensures
        lists_in_order(
            texts_bytes(out@),
            all_candidates(blobs_of(changed_content@, loaded@), Seq::empty()),
        ),
{
    parse_all_blobs(read_all_files(changed_content, loaded))
}

/// As `parse_candidate_strings_from_files`, with a strategy byte that may
/// choose how the blobs are scanned. A byte that makes no choice leaves the
/// scan parallel. The result does not depend on the strategy.
pub fn parse_candidate_strings(
    input: Vec<ChangedContent>,
    loaded: Vec<Option<Vec<u8>>>,
    strategy: u8,
) -> (out: Vec<String>)
    ensures
        lists_in_order(
            texts_bytes(out@),
            all_candidates(blobs_of(input@, loaded@), Seq::empty()),
        ),
{
    let parsing = match Parsing::from_bits(strategy) {
        Some(chosen) => chosen,
        None => Parsing::Parallel,
    };
    parse_all_blobs_with(read_all_files(input, loaded), parsing)
}

/// The output is determined by the input: two runs over the same blobs give
/// the same strings in the same order, however the work was scheduled.
pub proof fn lemma_same_input_same_output(
    blobs: Seq<Seq<u8>>,
    extra: Seq<u8>,
    first: Seq<String>,
    second: Seq<String>,
)
    requires
        lists_in_order(texts_bytes(first), all_candidates(blobs, extra)),
        lists_in_order(texts_bytes(second), all_candidates(blobs, extra)),
    ensures
        first.len() == second.len(),
        forall|i: int| 0 <= i < first.len() ==> (#[trigger] first[i])@ == second[i]@,
{
    lemma_ascending_unique(texts_bytes(first), texts_bytes(second));
    assert(first.len() == texts_bytes(first).len());
    assert(second.len() == texts_bytes(second).len());
    assert forall|i: int| 0 <= i < first.len() implies (#[trigger] first[i])@ == second[i]@ by {
        assert(texts_bytes(first)[i] == texts_bytes(second)[i]);
        encode_utf8_decode_utf8(first[i]@);
        encode_utf8_decode_utf8(second[i]@);
    }
}

/// In an output that ascends, no string occurs twice.
pub proof fn lemma_output_has_no_duplicates(out: Seq<String>)
    requires
        strictly_ascending(texts_bytes(out)),
    ensures
        forall|i: int, j: int|
            0 <= i < j < out.len() ==> (#[trigger] out[i])@ != (#[trigger] out[j])@,
{
    assert forall|i: int, j: int| 0 <= i < j < out.len() implies (#[trigger] out[i])@ != (
    #[trigger] out[j])@ by {
        assert(lex_lt(texts_bytes(out)[i], texts_bytes(out)[j]));
        lemma_lex_asymmetric(texts_bytes(out)[i], texts_bytes(out)[j]);
    }
}

/// The candidates of all blobs depend on which blobs there are, not on their
/// order nor on how often one is supplied.
pub proof fn lemma_blob_order_is_immaterial(a: Seq<Seq<u8>>, b: Seq<Seq<u8>>, extra: Seq<u8>)
    requires
        forall|blob: Seq<u8>| a.contains(blob) <==> b.contains(blob),
    ensures
        all_candidates(a, extra) == all_candidates(b, extra),
{
    assert forall|c: Seq<u8>| all_candidates(a, extra).contains(c) implies all_candidates(
        b,
        extra,
    ).contains(c) by {
        let k = choose|k: int| 0 <= k < a.len() && #[trigger] candidates(a[k], extra).contains(c);
        assert(a.contains(a[k]));
        let m = choose|m: int| 0 <= m < b.len() && b[m] == a[k];
        assert(candidates(b[m], extra).contains(c));
    }
    assert forall|c: Seq<u8>| all_candidates(b, extra).contains(c) implies all_candidates(
        a,
        extra,
    ).contains(c) by {
        let k = choose|k: int| 0 <= k < b.len() && #[trigger] candidates(b[k], extra).contains(c);
        assert(b.contains(b[k]));
        let m = choose|m: int| 0 <= m < a.len() && a[m] == b[k];
        assert(candidates(a[m], extra).contains(c));
    }
    assert(all_candidates(a, extra) =~= all_candidates(b, extra));
}

/// The candidates of two blobs together are the union of their candidates:
/// the order in which blobs are supplied or merged does not matter.
pub proof fn lemma_all_candidates_of_two(a: Seq<u8>, b: Seq<u8>, extra: Seq<u8>)
    ensures
        all_candidates(seq![a, b], extra) == candidates(a, extra).union(candidates(b, extra)),
        all_candidates(seq![a], extra) == candidates(a, extra),
        all_candidates(seq![a, b], extra) == all_candidates(seq![b, a], extra),
{
    let two = seq![a, b];
    let swapped = seq![b, a];
    let one = seq![a];
    assert forall|c: Seq<u8>|
        all_candidates(two, extra).contains(c) == candidates(a, extra).union(
            candidates(b, extra),
        ).contains(c) by {
        if candidates(a, extra).contains(c) {
            assert(candidates(two[0], extra).contains(c));
        }
        if candidates(b, extra).contains(c) {
            assert(candidates(two[1], extra).contains(c));
        }
    }
    assert forall|c: Seq<u8>|
        all_candidates(swapped, extra).contains(c) == candidates(a, extra).union(
            candidates(b, extra),
        ).contains(c) by {
        if candidates(a, extra).contains(c) {
            assert(candidates(swapped[1], extra).contains(c));
        }
        if candidates(b, extra).contains(c) {
            assert(candidates(swapped[0], extra).contains(c));
        }
    }
    assert forall|c: Seq<u8>|
        all_candidates(one, extra).contains(c) == candidates(a, extra).contains(c) by {
        if candidates(a, extra).contains(c) {
            assert(candidates(one[0], extra).contains(c));
        }
    }
    assert(all_candidates(two, extra) =~= candidates(a, extra).union(candidates(b, extra)));
    assert(all_candidates(swapped, extra) =~= candidates(a, extra).union(candidates(b, extra)));
    assert(all_candidates(one, extra) =~= candidates(a, extra));
}

/// Supplying a blob as two sources, cut before or after a closing byte that
/// stands outside brackets, gives the candidates of the blob supplied whole.
pub proof fn lemma_split_source(left: Seq<u8>, b: u8, right: Seq<u8>, extra: Seq<u8>)
    requires
        !is_continue_byte(b, extra),
        !in_brackets(scan(left, left.len() as int, extra)),
    ensures
        all_candidates(seq![left.push(b), right], extra) == all_candidates(
            seq![left.push(b) + right],
            extra,
        ),
        all_candidates(seq![left, seq![b] + right], extra) == all_candidates(
            seq![left + (seq![b] + right)],
            extra,
        ),
{
    lemma_split_after_closing_byte(left, b, right, extra);
    lemma_split_before_closing_byte(left, b, right, extra);
    lemma_all_candidates_of_two(left.push(b), right, extra);
    lemma_all_candidates_of_two(left, seq![b] + right, extra);
    lemma_all_candidates_of_two(left.push(b) + right, right, extra);
    lemma_all_candidates_of_two(left + (seq![b] + right), right, extra);
}

} // verus!
