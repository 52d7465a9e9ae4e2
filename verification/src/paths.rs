//! Paths as byte strings with `/` between their components: the file name,
//! the extension and the parent directory of a path, and a key by which
//! paths are told apart and ordered. Separators that are repeated or trail,
//! and segments `.` that do not lead, belong to no component.

use crate::classifier::DOT;
use crate::classifier::SLASH;
use crate::text::lemma_ascii_is_utf8;
use crate::text::lemma_utf8_around_ascii;
use crate::text::same_bytes;
use vstd::prelude::*;
use vstd::slice::slice_subrange;
use vstd::utf8::valid_utf8;
use vstd::utf8::valid_utf8_concat;

verus! {

/// The position of the last `b` in `s`, or -1 where `s` holds none.
pub open spec fn last_index_of(s: Seq<u8>, b: u8) -> int
    decreases s.len(),
{
    if s.len() == 0 {
        -1
    } else if s.last() == b {
        s.len() - 1
    } else {
        last_index_of(s.drop_last(), b)
    }
}

/// What follows the last `/` of the path: the whole path where it has none.
pub open spec fn last_segment(path: Seq<u8>) -> Seq<u8> {
    path.subrange(last_index_of(path, SLASH) + 1, path.len() as int)
}

/// Whether the path ends in a byte that belongs to no component: a `/` that
/// is not the root, or the `.` of a last segment `.` that is not the whole
/// path.
pub open spec fn has_loose_end(path: Seq<u8>) -> bool {
    path.len() > 1 && (path.last() == SLASH || (path.last() == DOT && path[path.len() - 2]
        == SLASH))
}

/// The path up to the end of its last component: trailing separators and
/// trailing segments `.` are left out. The root `/` and a path that is only
/// `.` stay as they are.
pub open spec fn trimmed(path: Seq<u8>) -> Seq<u8>
    decreases path.len(),
{
    if has_loose_end(path) {
        trimmed(path.drop_last())
    } else {
        path
    }
}

/// The file name of a path: its last component, unless the path has none or
/// the last one is the root, `.` or `..`.
pub open spec fn file_name_of(path: Seq<u8>) -> Option<Seq<u8>> {
    let name = last_segment(trimmed(path));
    if name.len() == 0 || name == seq![DOT] || name == seq![DOT, DOT] {
        None
    } else {
        Some(name)
    }
}

/// The extension of a path: what follows the last `.` of its file name. A
/// path without a file name has none, nor has a file name without a `.`, nor
/// one whose only `.` is its first byte.
pub open spec fn extension_of(path: Seq<u8>) -> Option<Seq<u8>> {
    match file_name_of(path) {
        None => None,
        Some(name) => {
            let dot = last_index_of(name, DOT);
            if dot <= 0 {
                None
            } else {
                Some(name.subrange(dot + 1, name.len() as int))
            }
        },
    }
}

/// The parent of a path: the path without its last component, as it is
/// written up to the end of the component before. A path of one component
/// has the empty parent, or the root where it begins there; the empty path
/// and the root have none.
pub open spec fn parent_of(path: Seq<u8>) -> Option<Seq<u8>> {
    let whole = trimmed(path);
    let start = last_index_of(whole, SLASH) + 1;
    if start >= whole.len() {
        None
    } else {
        Some(trimmed(whole.subrange(0, start)))
    }
}

/// The rank of the root among components.
pub const RANK_ROOT: u8 = 1;

/// The rank of a leading `.` among components.
pub const RANK_HERE: u8 = 2;

/// The rank of `..` among components.
pub const RANK_UP: u8 = 3;

/// The rank of a name among components.
pub const RANK_NAME: u8 = 4;

/// The rank of a component that is not the root.
pub open spec fn rank_of_segment(name: Seq<u8>) -> u8 {
    if name == seq![DOT] {
        RANK_HERE
    } else if name == seq![DOT, DOT] {
        RANK_UP
    } else {
        RANK_NAME
    }
}

/// A byte of a component as it stands in a key: bytes below `/` move up by
/// one, so that no byte of a component is 0 and their order stays.
pub open spec fn raised(b: u8) -> u8 {
    if b < SLASH {
        (b + 1) as u8
    } else {
        b
    }
}

/// The key of one component: its rank, its bytes raised, and 0 to end it.
pub open spec fn component_key(name: Seq<u8>) -> Seq<u8> {
    seq![rank_of_segment(name)] + Seq::new(name.len(), |i: int| raised(name[i])) + seq![0u8]
}

/// The key of the root.
pub open spec fn root_key() -> Seq<u8> {
    seq![RANK_ROOT, 0u8]
}

/// The key of a path: the keys of its components, one after the other.
/// Separators that are repeated or trail, and segments `.` that do not lead,
/// belong to no component, so all ways of writing a path have one key. Keys
/// compare byte by byte as paths do component by component: the root comes
/// before `.`, `.` before `..`, `..` before names, names by their bytes, and
/// a path before the paths below it.
pub open spec fn path_key(path: Seq<u8>) -> Seq<u8>
    decreases path.len(),
{
    let start = last_index_of(path, SLASH) + 1;
    if has_loose_end(path) {
        path_key(path.drop_last())
    } else if path.len() == 0 {
        Seq::empty()
    } else if 0 <= start < path.len() {
        path_key(path.subrange(0, start)) + component_key(
            path.subrange(start, path.len() as int),
        )
    } else {
        root_key()
    }
}

/// Whether two ways of writing a path name the same path.
pub open spec fn same_path(a: Seq<u8>, b: Seq<u8>) -> bool {
    path_key(a) == path_key(b)
}

/// What an optional slice holds.
pub open spec fn held(r: Option<&[u8]>) -> Option<Seq<u8>> {
    match r {
        Some(bytes) => Some(bytes@),
        None => None,
    }
}

/// `last_index_of` gives a position of `b` after which no `b` comes.
pub proof fn lemma_last_index_of(s: Seq<u8>, b: u8)
    ensures
        -1 <= last_index_of(s, b) < s.len(),
        last_index_of(s, b) >= 0 ==> s[last_index_of(s, b)] == b,
        forall|j: int| last_index_of(s, b) < j < s.len() ==> s[j] != b,
    decreases s.len(),
{
    if s.len() > 0 && s.last() != b {
        lemma_last_index_of(s.drop_last(), b);
        assert forall|j: int| last_index_of(s, b) < j < s.len() implies s[j] != b by {
            if j < s.len() - 1 {
                assert(s.drop_last()[j] == s[j]);
            }
        }
    }
}

/// A position of `b` after which no `b` comes is the last index of `b`.
pub proof fn lemma_last_index_unique(s: Seq<u8>, b: u8, r: int)
    requires
        -1 <= r < s.len(),
        r >= 0 ==> s[r] == b,
        forall|j: int| r < j < s.len() ==> s[j] != b,
    ensures
        last_index_of(s, b) == r,
{
    lemma_last_index_of(s, b);
}

/// What is left out at the end of a path is ASCII, and what stays has no
/// loose end.
pub proof fn lemma_trimmed(path: Seq<u8>)
    ensures
        trimmed(path).len() <= path.len(),
        trimmed(path) == path.take(trimmed(path).len() as int),
        !has_loose_end(trimmed(path)),
        path.len() > 0 ==> trimmed(path).len() > 0,
        forall|i: int| trimmed(path).len() <= i < path.len() ==> path[i] < 0x80,
    decreases path.len(),
{
    if has_loose_end(path) {
        let shorter = path.drop_last();
        lemma_trimmed(shorter);
        assert(path.take(trimmed(path).len() as int) =~= shorter.take(
            trimmed(shorter).len() as int,
        ));
        assert forall|i: int| trimmed(path).len() <= i < path.len() implies path[i] < 0x80 by {
            if i < shorter.len() {
                assert(shorter[i] == path[i]);
            }
        }
    } else {
        assert(path.take(path.len() as int) =~= path);
    }
}

/// A path and the path without its loose end have the same key.
pub proof fn lemma_key_of_trimmed(path: Seq<u8>)
    ensures
        path_key(path) == path_key(trimmed(path)),
    decreases path.len(),
{
    if has_loose_end(path) {
        lemma_key_of_trimmed(path.drop_last());
    }
}

/// A separator at the end of a path changes neither the path that is meant
/// nor its file name, extension and parent.
pub proof fn lemma_trailing_separator(path: Seq<u8>)
    requires
        path.len() > 0,
    ensures
        same_path(path.push(SLASH), path),
        file_name_of(path.push(SLASH)) == file_name_of(path),
        extension_of(path.push(SLASH)) == extension_of(path),
        parent_of(path.push(SLASH)) == parent_of(path),
{
    let longer = path.push(SLASH);
    assert(longer.drop_last() =~= path);
    assert(has_loose_end(longer));
    assert(trimmed(longer) == trimmed(path));
}

/// What a text has before a position at which only ASCII follows is a text.
proof fn lemma_prefix_before_ascii(bytes: Seq<u8>, n: int)
    requires
        valid_utf8(bytes),
        0 <= n <= bytes.len(),
        forall|i: int| n <= i < bytes.len() ==> bytes[i] < 0x80,
    ensures
        valid_utf8(bytes.take(n)),
    decreases bytes.len() - n,
{
    if n < bytes.len() {
        lemma_utf8_around_ascii(bytes, bytes.len() - 1);
        let shorter = bytes.subrange(0, bytes.len() - 1);
        lemma_prefix_before_ascii(shorter, n);
        assert(shorter.take(n) =~= bytes.take(n));
    } else {
        assert(bytes.take(n) =~= bytes);
    }
}

/// The parts of a path that is a text are texts.
pub proof fn lemma_parts_are_text(path: Seq<u8>)
    requires
        valid_utf8(path),
    ensures
        valid_utf8(trimmed(path)),
        file_name_of(path) matches Some(name) ==> valid_utf8(name),
        extension_of(path) matches Some(ext) ==> valid_utf8(ext),
        parent_of(path) matches Some(dir) ==> valid_utf8(dir),
{
    lemma_trimmed(path);
    lemma_prefix_before_ascii(path, trimmed(path).len() as int);
    let whole = trimmed(path);
    lemma_last_index_of(whole, SLASH);
    let slash = last_index_of(whole, SLASH);
    let name = last_segment(whole);
    if slash >= 0 {
        lemma_utf8_around_ascii(whole, slash);
        let before = whole.subrange(0, slash);
        lemma_ascii_is_utf8(seq![SLASH]);
        valid_utf8_concat(before, seq![SLASH]);
        assert(before + seq![SLASH] =~= whole.subrange(0, slash + 1));
    } else {
        assert(name =~= whole);
        assert(whole.subrange(0, 0) =~= Seq::<u8>::empty());
    }
    let front = whole.subrange(0, slash + 1);
    assert(valid_utf8(front));
    lemma_trimmed(front);
    lemma_prefix_before_ascii(front, trimmed(front).len() as int);
    assert(valid_utf8(name));
    lemma_last_index_of(name, DOT);
    let dot = last_index_of(name, DOT);
    if dot >= 0 {
        lemma_utf8_around_ascii(name, dot);
    }
}

/// Finds the last `b` in `bytes`.
pub fn last_index(bytes: &[u8], b: u8) -> (r: Option<usize>)
    ensures
        match r {
            Some(i) => last_index_of(bytes@, b) == i && i < bytes@.len() && bytes@[i as int] == b,
            None => last_index_of(bytes@, b) == -1,
        },
{
    let mut i: usize = bytes.len();
    while i > 0
        invariant
            i <= bytes@.len(),
            forall|j: int| i <= j < bytes@.len() ==> bytes@[j] != b,
        decreases i,
    {
        if bytes[i - 1] == b {
            proof {
                lemma_last_index_unique(bytes@, b, i - 1);
            }
            return Some(i - 1);
        }
        i -= 1;
    }
    proof {
        lemma_last_index_unique(bytes@, b, -1);
    }
    None
}

/// The path without its loose end.
pub fn trim(path: &[u8]) -> (whole: &[u8])
    ensures
        whole@ == trimmed(path@),
{
    let mut n: usize = path.len();
    assert(path@.take(n as int) =~= path@);
    while n > 1 && (path[n - 1] == SLASH || (path[n - 1] == DOT && path[n - 2] == SLASH))
        invariant
            n <= path@.len(),
            trimmed(path@) == trimmed(path@.take(n as int)),
        decreases n,
    {
        proof {
            let now = path@.take(n as int);
            assert(has_loose_end(now));
            assert(now.drop_last() =~= path@.take(n - 1));
        }
        n -= 1;
    }
    assert(!has_loose_end(path@.take(n as int)));
    slice_subrange(path, 0, n)
}

/// Where the last segment of `path` begins.
fn segment_start(path: &[u8]) -> (start: usize)
    ensures
        start == last_index_of(path@, SLASH) + 1,
        start <= path@.len(),
{
    match last_index(path, SLASH) {
        Some(i) => {
            assert(i < path.len());
            i + 1
        },
        None => 0,
    }
}

/// The file name of `path`.
pub fn file_name(path: &[u8]) -> (r: Option<&[u8]>)
    ensures
        held(r) == file_name_of(path@),
{
    let whole = trim(path);
    let from = segment_start(whole);
    let name = slice_subrange(whole, from, whole.len());
    if name.len() == 0 {
        None
    } else if name.len() == 1 && name[0] == DOT {
        assert(name@ =~= seq![DOT]);
        None
    } else if name.len() == 2 && name[0] == DOT && name[1] == DOT {
        assert(name@ =~= seq![DOT, DOT]);
        None
    } else {
        proof {
            if name@ == seq![DOT] {
                assert(name@.len() == 1 && name@[0] == DOT);
            }
            if name@ == seq![DOT, DOT] {
                assert(name@.len() == 2 && name@[0] == DOT && name@[1] == DOT);
            }
        }
        Some(name)
    }
}

/// The extension of `path`.
pub fn extension(path: &[u8]) -> (r: Option<&[u8]>)
    ensures
        held(r) == extension_of(path@),
{
    match file_name(path) {
        None => None,
        Some(name) => {
            let len = name.len();
            match last_index(name, DOT) {
                None => None,
                Some(dot) => {
                    if dot == 0 {
                        None
                    } else {
                        Some(slice_subrange(name, dot + 1, len))
                    }
                },
            }
        },
    }
}

/// The parent of `path`.
pub fn parent(path: &[u8]) -> (r: Option<&[u8]>)
    ensures
        held(r) == parent_of(path@),
{
    let whole = trim(path);
    let start = segment_start(whole);
    if start >= whole.len() {
        None
    } else {
        Some(trim(slice_subrange(whole, 0, start)))
    }
}

/// The rank of a component that is not the root.
fn segment_rank(name: &[u8]) -> (rank: u8)
    ensures
        rank == rank_of_segment(name@),
{
    if name.len() == 1 && name[0] == DOT {
        assert(name@ =~= seq![DOT]);
        RANK_HERE
    } else if name.len() == 2 && name[0] == DOT && name[1] == DOT {
        assert(name@ =~= seq![DOT, DOT]);
        RANK_UP
    } else {
        proof {
            if name@ == seq![DOT] {
                assert(name@.len() == 1 && name@[0] == DOT);
            }
            if name@ == seq![DOT, DOT] {
                assert(name@.len() == 2 && name@[0] == DOT && name@[1] == DOT);
            }
        }
        RANK_NAME
    }
}

/// The key of `path`.
pub fn key(path: &[u8]) -> (k: Vec<u8>)
    ensures
        k@ == path_key(path@),
    decreases path@.len(),
{
    let whole = trim(path);
    proof {
        lemma_key_of_trimmed(path@);
        lemma_trimmed(path@);
    }
    if whole.len() == 0 {
        return Vec::new();
    }
    let start = segment_start(whole);
    if start >= whole.len() {
        let mut k: Vec<u8> = Vec::new();
        k.push(RANK_ROOT);
        k.push(0);
        assert(k@ =~= root_key());
        return k;
    }
    let name = slice_subrange(whole, start, whole.len());
    let mut k = key(slice_subrange(whole, 0, start));
    let ghost front = k@;
    k.push(segment_rank(name));
    let mut i: usize = 0;
    while i < name.len()
        invariant
            i <= name@.len(),
            k@ == front + seq![rank_of_segment(name@)] + Seq::new(
                i as nat,
                |j: int| raised(name@[j]),
            ),
        decreases name@.len() - i,
    {
        let b = name[i];
        let up: u8 = if b < SLASH {
            b + 1
        } else {
            b
        };
        k.push(up);
        assert(k@ =~= front + seq![rank_of_segment(name@)] + Seq::new(
            (i + 1) as nat,
            |j: int| raised(name@[j]),
        ));
        i += 1;
    }
    k.push(0);
    assert(k@ =~= front + component_key(name@));
    k
}

/// Whether `a` and `b` name the same path.
pub fn is_same_path(a: &[u8], b: &[u8]) -> (r: bool)
    ensures
        r == same_path(a@, b@),
{
    let ka = key(a);
    let kb = key(b);
    same_bytes(ka.as_slice(), kb.as_slice())
}

} // verus!
