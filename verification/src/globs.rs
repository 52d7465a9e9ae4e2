//! The content path resolver: the files of a content tree, grouped by
//! directory and compressed into glob patterns.

use crate::classifier::DOT;
use crate::classifier::SLASH;
use crate::order::ascending_listing;
use crate::order::lemma_ascending_listing;
use crate::order::lemma_lex_asymmetric;
use crate::order::lemma_with_element;
use crate::order::lists_in_order;
use crate::order::with_element;
use crate::paths::extension;
use crate::paths::extension_of;
use crate::paths::lemma_last_index_of;
use crate::paths::lemma_parts_are_text;
use crate::paths::parent;
use crate::paths::key;
use crate::paths::parent_of;
use crate::paths::path_key;
use crate::paths::same_path;
use crate::paths::trimmed;
use crate::policy::ContentPolicy;
use crate::policy::is_allowed_path;
use crate::text::same_bytes;
use crate::sorted_set::SortedSet;
use crate::text::lemma_ascii_is_utf8;
use crate::text::string_from_utf8;
use crate::text::text_bytes;
use crate::text::texts_bytes;
use vstd::prelude::*;
use vstd::slice::slice_to_vec;
use vstd::utf8::encode_utf8;
use vstd::utf8::encode_utf8_valid_utf8;
use vstd::utf8::valid_utf8;
use vstd::utf8::valid_utf8_concat;

verus! {

/// `*`
pub const STAR: u8 = 0x2a;

/// `,`
pub const COMMA: u8 = 0x2c;

/// `{`
pub const OPEN_BRACE: u8 = 0x7b;

/// `}`
pub const CLOSE_BRACE: u8 = 0x7d;

/// The root of a content tree.
#[derive(Debug, Clone)]
pub struct ContentPathInfo {
    pub base: String,
}

/// What went wrong with a walk.
#[derive(Debug, Clone, Copy, PartialEq, Eq, Structural)]
pub enum ResolveError {
    /// The root could not be reached, so the tree was not walked at all.
    RootUnreachable,
}

/// What a walk of the tree under a root gave.
#[derive(Debug)]
pub enum WalkOutcome {
    /// The paths of the files that the walk came upon.
    Files(Vec<String>),
    /// The root could not be reached.
    RootUnreachable,
}

/// The directory that holds `file` directly, by its key, where the content
/// policy allows the file.
pub open spec fn dir_of(file: Seq<u8>) -> Option<Seq<u8>> {
    if is_allowed_path(file) && parent_of(file) is Some {
        Some(path_key(parent_of(file)->0))
    } else {
        None
    }
}

/// The directories that hold an allowed file directly, by their keys.
pub open spec fn group_dirs(files: Seq<Seq<u8>>) -> Set<Seq<u8>> {
    Set::new(
        |dir: Seq<u8>|
            exists|i: int|
                0 <= i < files.len() && dir_of(#[trigger] files[i]) == Some(dir),
    )
}

/// How the directory with key `dir` is written: as the parent of the first
/// of `files` that it holds.
pub open spec fn spelling(files: Seq<Seq<u8>>, dir: Seq<u8>) -> Seq<u8>
    decreases files.len(),
{
    if files.len() == 0 {
        Seq::empty()
    } else if group_dirs(files.drop_last()).contains(dir) {
        spelling(files.drop_last(), dir)
    } else if dir_of(files.last()) == Some(dir) {
        parent_of(files.last())->0
    } else {
        Seq::empty()
    }
}

/// The extensions of the allowed files that `dir` holds directly.
pub open spec fn group_extensions(files: Seq<Seq<u8>>, dir: Seq<u8>) -> Set<Seq<u8>> {
    Set::new(
        |ext: Seq<u8>|
            exists|i: int|
                0 <= i < files.len() && dir_of(#[trigger] files[i]) == Some(dir)
                    && extension_of(files[i]) == Some(ext),
    )
}

/// The parts with `sep` between each two of them.
pub open spec fn joined(parts: Seq<Seq<u8>>, sep: u8) -> Seq<u8>
    decreases parts.len(),
{
    if parts.len() == 0 {
        Seq::empty()
    } else if parts.len() == 1 {
        parts[0]
    } else {
        joined(parts.drop_last(), sep).push(sep) + parts.last()
    }
}

/// How a pattern names the extensions: a single one as it is, several as a
/// brace alternation.
pub open spec fn extension_part(extensions: Seq<Seq<u8>>) -> Seq<u8> {
    if extensions.len() == 1 {
        extensions[0]
    } else {
        seq![OPEN_BRACE] + joined(extensions, COMMA) + seq![CLOSE_BRACE]
    }
}

/// The wildcard for file names: `*` for the files of the root itself,
/// `**/*` for those of any other directory and of the directories below it.
pub open spec fn wildcard(at_root: bool) -> Seq<u8> {
    if at_root {
        seq![STAR]
    } else {
        seq![STAR, STAR, SLASH, STAR]
    }
}

/// The pattern for a directory and the extensions found in it.
pub open spec fn pattern_of(dir: Seq<u8>, at_root: bool, extensions: Seq<Seq<u8>>) -> Seq<u8> {
    dir + seq![SLASH] + wildcard(at_root) + seq![DOT] + extension_part(extensions)
}

/// The patterns for the files of a tree under `root`: one for each directory
/// that holds an allowed file, directories in the order of their keys, and
/// in each pattern the extensions in ascending order. The directory that is
/// the same path as the root gets the wildcard for the root.
pub open spec fn glob_patterns(root: Seq<u8>, files: Seq<Seq<u8>>) -> Seq<Seq<u8>> {
    let dirs = ascending_listing(group_dirs(files));
    Seq::new(
        dirs.len(),
        |k: int|
            pattern_of(
                spelling(files, dirs[k]),
                dirs[k] == path_key(root),
                ascending_listing(group_extensions(files, dirs[k])),
            ),
    )
}

/// What `resolve_content_paths` owes for the outcome of a walk: a failure
/// where the root could not be reached, else the patterns.
pub open spec fn resolved(root: Seq<u8>, walk: WalkOutcome) -> Result<Seq<Seq<u8>>, ResolveError> {
    match walk {
        WalkOutcome::Files(files) => Ok(glob_patterns(root, texts_bytes(files@))),
        WalkOutcome::RootUnreachable => Err(ResolveError::RootUnreachable),
    }
}

/// The bytes of the patterns in a result.
pub open spec fn bytes_of_result(r: Result<Vec<String>, ResolveError>) -> Result<
    Seq<Seq<u8>>,
    ResolveError,
> {
    match r {
        Ok(patterns) => Ok(texts_bytes(patterns@)),
        Err(e) => Err(e),
    }
}

/// The directory of a file is written as the parent of the first file that
/// lies in it.
pub proof fn lemma_spelling_is_of_first(files: Seq<Seq<u8>>, dir: Seq<u8>, i: int)
    requires
        0 <= i < files.len(),
        dir_of(files[i]) == Some(dir),
        forall|j: int| 0 <= j < i ==> dir_of(#[trigger] files[j]) != Some(dir),
    ensures
        spelling(files, dir) == parent_of(files[i])->0,
    decreases files.len(),
{
    let shorter = files.drop_last();
    if i < files.len() - 1 {
        assert(shorter[i] == files[i]);
        assert(group_dirs(shorter).contains(dir));
        assert forall|j: int| 0 <= j < i implies dir_of(#[trigger] shorter[j]) != Some(dir) by {
            assert(shorter[j] == files[j]);
        }
        lemma_spelling_is_of_first(shorter, dir, i);
    } else {
        if group_dirs(shorter).contains(dir) {
            let j = choose|j: int|
                0 <= j < shorter.len() && dir_of(#[trigger] shorter[j]) == Some(dir);
            assert(shorter[j] == files[j]);
        }
    }
}

/// What one more file does to the way a directory is written.
proof fn lemma_spelling_step(files: Seq<Seq<u8>>, n: int, dir: Seq<u8>)
    requires
        0 <= n < files.len(),
    ensures
        spelling(files.take(n + 1), dir) == if group_dirs(files.take(n)).contains(dir) {
            spelling(files.take(n), dir)
        } else if dir_of(files[n]) == Some(dir) {
            parent_of(files[n])->0
        } else {
            Seq::empty()
        },
{
    let after = files.take(n + 1);
    assert(after.drop_last() =~= files.take(n));
    assert(after.last() == files[n]);
}

/// The patterns depend on which files there are and on how their
/// directories are written, not on the order in which the walk came upon
/// them.
pub proof fn lemma_file_order_is_immaterial(root: Seq<u8>, a: Seq<Seq<u8>>, b: Seq<Seq<u8>>)
    requires
        forall|file: Seq<u8>| a.contains(file) <==> b.contains(file),
        forall|dir: Seq<u8>| spelling(a, dir) == spelling(b, dir),
    ensures
        glob_patterns(root, a) == glob_patterns(root, b),
{
    assert forall|dir: Seq<u8>| group_dirs(a).contains(dir) == group_dirs(b).contains(dir) by {
        if group_dirs(a).contains(dir) {
            let i = choose|i: int|
                0 <= i < a.len() && dir_of(#[trigger] a[i]) == Some(dir);
            assert(a.contains(a[i]));
            let m = choose|m: int| 0 <= m < b.len() && b[m] == a[i];
            assert(dir_of(b[m]) == Some(dir));
        }
        if group_dirs(b).contains(dir) {
            let i = choose|i: int|
                0 <= i < b.len() && dir_of(#[trigger] b[i]) == Some(dir);
            assert(b.contains(b[i]));
            let m = choose|m: int| 0 <= m < a.len() && a[m] == b[i];
            assert(dir_of(a[m]) == Some(dir));
        }
    }
    assert(group_dirs(a) =~= group_dirs(b));
    assert forall|dir: Seq<u8>| #[trigger] group_extensions(a, dir) == group_extensions(b, dir) by {
        assert forall|ext: Seq<u8>|
            group_extensions(a, dir).contains(ext) == group_extensions(b, dir).contains(ext) by {
            if group_extensions(a, dir).contains(ext) {
                let i = choose|i: int|
                    0 <= i < a.len() && dir_of(#[trigger] a[i]) == Some(dir)
                        && extension_of(a[i]) == Some(ext);
                assert(a.contains(a[i]));
                let m = choose|m: int| 0 <= m < b.len() && b[m] == a[i];
                assert(dir_of(b[m]) == Some(dir));
            }
            if group_extensions(b, dir).contains(ext) {
                let i = choose|i: int|
                    0 <= i < b.len() && dir_of(#[trigger] b[i]) == Some(dir)
                        && extension_of(b[i]) == Some(ext);
                assert(b.contains(b[i]));
                let m = choose|m: int| 0 <= m < a.len() && a[m] == b[i];
                assert(dir_of(a[m]) == Some(dir));
            }
        }
        assert(group_extensions(a, dir) =~= group_extensions(b, dir));
    }
    assert(glob_patterns(root, a) =~= glob_patterns(root, b));
}

/// What one more file adds to the groups.
proof fn lemma_groups_step(files: Seq<Seq<u8>>, n: int)
    requires
        0 <= n < files.len(),
    ensures
        ({
            let file = files[n];
            let before = files.take(n);
            let after = files.take(n + 1);
            let counts = dir_of(file) is Some;
            &&& group_dirs(after) == if counts {
                group_dirs(before).insert(dir_of(file)->0)
            } else {
                group_dirs(before)
            }
            &&& forall|dir: Seq<u8>| #[trigger]
                group_extensions(after, dir) == if dir_of(file) == Some(dir) {
                    group_extensions(before, dir).insert(extension_of(file)->0)
                } else {
                    group_extensions(before, dir)
                }
        }),
{
    let file = files[n];
    let before = files.take(n);
    let after = files.take(n + 1);
    let counts = dir_of(file) is Some;
    assert(after[n] == file);
    let dirs = if counts {
        group_dirs(before).insert(dir_of(file)->0)
    } else {
        group_dirs(before)
    };
    assert forall|dir: Seq<u8>| group_dirs(after).contains(dir) == dirs.contains(dir) by {
        if group_dirs(after).contains(dir) {
            let i = choose|i: int|
                0 <= i < after.len() && dir_of(#[trigger] after[i]) == Some(dir);
            if i < n {
                assert(before[i] == after[i]);
            }
        }
        if group_dirs(before).contains(dir) {
            let i = choose|i: int|
                0 <= i < before.len() && dir_of(#[trigger] before[i]) == Some(dir);
            assert(after[i] == before[i]);
        }
    }
    assert(group_dirs(after) =~= dirs);
    assert forall|dir: Seq<u8>| #[trigger]
        group_extensions(after, dir) == if dir_of(file) == Some(dir) {
            group_extensions(before, dir).insert(extension_of(file)->0)
        } else {
            group_extensions(before, dir)
        } by {
        let exts = if dir_of(file) == Some(dir) {
            group_extensions(before, dir).insert(extension_of(file)->0)
        } else {
            group_extensions(before, dir)
        };
        assert forall|ext: Seq<u8>|
            group_extensions(after, dir).contains(ext) == exts.contains(ext) by {
            if group_extensions(after, dir).contains(ext) {
                let i = choose|i: int|
                    0 <= i < after.len() && dir_of(#[trigger] after[i]) == Some(dir)
                        && extension_of(after[i]) == Some(ext);
                if i < n {
                    assert(before[i] == after[i]);
                }
            }
            if group_extensions(before, dir).contains(ext) {
                let i = choose|i: int|
                    0 <= i < before.len() && dir_of(#[trigger] before[i]) == Some(dir)
                        && extension_of(before[i]) == Some(ext);
                assert(after[i] == before[i]);
            }
        }
        assert(group_extensions(after, dir) =~= exts);
    }
}

/// An ascending listing of the directories among the first `n` files.
proof fn lemma_dirs_listing(files: Seq<Seq<u8>>, n: int) -> (out: Seq<Seq<u8>>)
    requires
        0 <= n <= files.len(),
    ensures
        lists_in_order(out, group_dirs(files.take(n))),
    decreases n,
{
    if n == 0 {
        let out = Seq::<Seq<u8>>::empty();
        assert(group_dirs(files.take(0)) =~= Set::<Seq<u8>>::empty());
        out
    } else {
        let shorter = lemma_dirs_listing(files, n - 1);
        lemma_groups_step(files, n - 1);
        let file = files[n - 1];
        if dir_of(file) is Some {
            lemma_with_element(shorter, group_dirs(files.take(n - 1)), dir_of(file)->0);
            with_element(shorter, dir_of(file)->0)
        } else {
            shorter
        }
    }
}

/// An ascending listing of the extensions that the first `n` files have in
/// `dir`.
proof fn lemma_extensions_listing(files: Seq<Seq<u8>>, dir: Seq<u8>, n: int) -> (out: Seq<Seq<u8>>)
    requires
        0 <= n <= files.len(),
    ensures
        lists_in_order(out, group_extensions(files.take(n), dir)),
    decreases n,
{
    if n == 0 {
        let out = Seq::<Seq<u8>>::empty();
        assert(group_extensions(files.take(0), dir) =~= Set::<Seq<u8>>::empty());
        out
    } else {
        let shorter = lemma_extensions_listing(files, dir, n - 1);
        lemma_groups_step(files, n - 1);
        let file = files[n - 1];
        if dir_of(file) == Some(dir) {
            lemma_with_element(
                shorter,
                group_extensions(files.take(n - 1), dir),
                extension_of(file)->0,
            );
            with_element(shorter, extension_of(file)->0)
        } else {
            shorter
        }
    }
}

/// The groups of any files can be listed in ascending order, so that
/// `glob_patterns` speaks of listings that exist.
pub proof fn lemma_groups_are_listed(files: Seq<Seq<u8>>)
    ensures
        lists_in_order(ascending_listing(group_dirs(files)), group_dirs(files)),
        forall|dir: Seq<u8>|
            lists_in_order(
                #[trigger] ascending_listing(group_extensions(files, dir)),
                group_extensions(files, dir),
            ),
{
    assert(files.take(files.len() as int) =~= files);
    let dirs = lemma_dirs_listing(files, files.len() as int);
    assert(lists_in_order(dirs, group_dirs(files)));
    assert forall|dir: Seq<u8>|
        lists_in_order(
            #[trigger] ascending_listing(group_extensions(files, dir)),
            group_extensions(files, dir),
        ) by {
        let extensions = lemma_extensions_listing(files, dir, files.len() as int);
        assert(lists_in_order(extensions, group_extensions(files, dir)));
    }
}

/// A path that the policy allows has a parent and an extension, and so a
/// directory.
pub proof fn lemma_allowed_has_parent(path: Seq<u8>)
    requires
        is_allowed_path(path),
    ensures
        parent_of(path) is Some,
        extension_of(path) is Some,
        dir_of(path) is Some,
{
    lemma_last_index_of(trimmed(path), SLASH);
}

/// Every allowed file is spoken for: among the patterns is the one for its
/// directory, and that pattern names its extension.
pub proof fn lemma_allowed_file_is_covered(root: Seq<u8>, files: Seq<Seq<u8>>, i: int)
    requires
        0 <= i < files.len(),
        is_allowed_path(files[i]),
    ensures
        ({
            let dir = dir_of(files[i])->0;
            let extensions = ascending_listing(group_extensions(files, dir));
            &&& extensions.contains(extension_of(files[i])->0)
            &&& glob_patterns(root, files).contains(
                pattern_of(spelling(files, dir), dir == path_key(root), extensions),
            )
        }),
{
    lemma_allowed_has_parent(files[i]);
    lemma_groups_are_listed(files);
    let dir = dir_of(files[i])->0;
    let ext = extension_of(files[i])->0;
    let dirs = ascending_listing(group_dirs(files));
    let extensions = ascending_listing(group_extensions(files, dir));
    assert(group_dirs(files).contains(dir));
    assert(group_extensions(files, dir).contains(ext));
    assert(dirs.contains(dir));
    let k = choose|k: int| 0 <= k < dirs.len() && dirs[k] == dir;
    assert(glob_patterns(root, files)[k] == pattern_of(
        spelling(files, dir),
        dir == path_key(root),
        extensions,
    ));
}

/// There is one pattern for each directory that holds an allowed file, and
/// each pattern names an extension.
pub proof fn lemma_one_pattern_for_each_dir(root: Seq<u8>, files: Seq<Seq<u8>>)
    ensures
        glob_patterns(root, files).len() == ascending_listing(group_dirs(files)).len(),
        forall|k: int|
            0 <= k < ascending_listing(group_dirs(files)).len() ==> ascending_listing(
                group_extensions(files, #[trigger] ascending_listing(group_dirs(files))[k]),
            ).len() >= 1,
{
    lemma_groups_are_listed(files);
    let dirs = ascending_listing(group_dirs(files));
    assert forall|k: int| 0 <= k < dirs.len() implies ascending_listing(
        group_extensions(files, #[trigger] dirs[k]),
    ).len() >= 1 by {
        let dir = dirs[k];
        assert(dirs.contains(dir));
        assert(group_dirs(files).contains(dir));
        let i = choose|i: int|
            0 <= i < files.len() && dir_of(#[trigger] files[i]) == Some(dir);
        lemma_allowed_has_parent(files[i]);
        let ext = extension_of(files[i])->0;
        assert(group_extensions(files, dir).contains(ext));
        assert(ascending_listing(group_extensions(files, dir)).contains(ext));
    }
}

/// A directory that holds no allowed file has no extensions.
proof fn lemma_no_dir_no_extensions(files: Seq<Seq<u8>>, dir: Seq<u8>)
    requires
        !group_dirs(files).contains(dir),
    ensures
        group_extensions(files, dir) == Set::<Seq<u8>>::empty(),
{
    assert(group_extensions(files, dir) =~= Set::<Seq<u8>>::empty());
}

/// Parts that are texts, joined by an ASCII byte, are a text.
proof fn lemma_joined_is_text(parts: Seq<Seq<u8>>, sep: u8)
    requires
        sep < 0x80,
        forall|j: int| 0 <= j < parts.len() ==> valid_utf8(#[trigger] parts[j]),
    ensures
        valid_utf8(joined(parts, sep)),
    decreases parts.len(),
{
    if parts.len() > 1 {
        let front = parts.drop_last();
        assert forall|j: int| 0 <= j < front.len() implies valid_utf8(#[trigger] front[j]) by {
            assert(front[j] == parts[j]);
        }
        lemma_joined_is_text(front, sep);
        lemma_ascii_is_utf8(seq![sep]);
        valid_utf8_concat(joined(front, sep), seq![sep]);
        assert(joined(front, sep) + seq![sep] =~= joined(front, sep).push(sep));
        valid_utf8_concat(joined(front, sep).push(sep), parts.last());
    }
}

/// A pattern made of texts is a text.
proof fn lemma_pattern_is_text(dir: Seq<u8>, at_root: bool, extensions: Seq<Seq<u8>>)
    requires
        valid_utf8(dir),
        forall|j: int| 0 <= j < extensions.len() ==> valid_utf8(#[trigger] extensions[j]),
    ensures
        valid_utf8(pattern_of(dir, at_root, extensions)),
{
    lemma_ascii_is_utf8(seq![SLASH]);
    lemma_ascii_is_utf8(wildcard(at_root));
    lemma_ascii_is_utf8(seq![DOT]);
    lemma_ascii_is_utf8(seq![OPEN_BRACE]);
    lemma_ascii_is_utf8(seq![CLOSE_BRACE]);
    lemma_joined_is_text(extensions, COMMA);
    valid_utf8_concat(seq![OPEN_BRACE], joined(extensions, COMMA));
    valid_utf8_concat(seq![OPEN_BRACE] + joined(extensions, COMMA), seq![CLOSE_BRACE]);
    valid_utf8_concat(dir, seq![SLASH]);
    valid_utf8_concat(dir + seq![SLASH], wildcard(at_root));
    valid_utf8_concat(dir + seq![SLASH] + wildcard(at_root), seq![DOT]);
    valid_utf8_concat(
        dir + seq![SLASH] + wildcard(at_root) + seq![DOT],
        extension_part(extensions),
    );
}

/// The keys in `dirs` and, at the same places, the spellings in `spelled`
/// and the extensions in `extensions` are the groups of `files`, and what is
/// written into patterns is text.
pub open spec fn grouped(
    dirs: SortedSet,
    spelled: Seq<Vec<u8>>,
    extensions: Seq<SortedSet>,
    files: Seq<Seq<u8>>,
) -> bool {
    &&& dirs.wf()
    &&& extensions.len() == dirs@.len()
    &&& spelled.len() == dirs@.len()
    &&& dirs.elements() == group_dirs(files)
    &&& forall|k: int|
        0 <= k < extensions.len() ==> (#[trigger] extensions[k]).wf() && extensions[k].elements()
            == group_extensions(files, dirs@[k])
    &&& forall|k: int|
        0 <= k < spelled.len() ==> (#[trigger] spelled[k])@ == spelling(files, dirs@[k])
            && valid_utf8(spelled[k]@)
    &&& forall|k: int, j: int|
        0 <= k < extensions.len() && 0 <= j < extensions[k]@.len() ==> valid_utf8(
            #[trigger] extensions[k]@[j],
        )
}

/// Appends `part` to `out`.
fn append(out: &mut Vec<u8>, part: &[u8])
    ensures
        final(out)@ == old(out)@ + part@,
{
    let mut i: usize = 0;
    while i < part.len()
        invariant
            i <= part@.len(),
            out@ == old(out)@ + part@.take(i as int),
        decreases part@.len() - i,
    {
        out.push(part[i]);
        assert(part@.take(i + 1) =~= part@.take(i as int).push(part@[i as int]));
        i += 1;
    }
    assert(part@.take(i as int) =~= part@);
}

/// Writes the pattern for a directory and its extensions.
fn pattern(dir: &[u8], at_root: bool, extensions: &SortedSet) -> (out: Vec<u8>)
    ensures
        out@ == pattern_of(dir@, at_root, extensions@),
{
    let mut out: Vec<u8> = Vec::new();
    append(&mut out, dir);
    out.push(SLASH);
    if !at_root {
        out.push(STAR);
        out.push(STAR);
        out.push(SLASH);
    }
    out.push(STAR);
    out.push(DOT);
    let ghost head = dir@ + seq![SLASH] + wildcard(at_root) + seq![DOT];
    assert(out@ =~= head);
    let count = extensions.len();
    if count == 1 {
        if let Some(only) = extensions.get(0) {
            append(&mut out, only.as_slice());
        }
        return out;
    }
    out.push(OPEN_BRACE);
    let mut j: usize = 0;
    while j < count
        invariant
            count == extensions@.len(),
            j <= count,
            out@ == head + seq![OPEN_BRACE] + joined(extensions@.take(j as int), COMMA),
        decreases count - j,
    {
        let ghost before = extensions@.take(j as int);
        let ghost after = extensions@.take(j + 1);
        if j > 0 {
            out.push(COMMA);
        }
        if let Some(ext) = extensions.get(j) {
            append(&mut out, ext.as_slice());
        }
        proof {
            assert(after.drop_last() =~= before);
            assert(after.last() == extensions@[j as int]);
            if j > 0 {
                assert(out@ =~= head + seq![OPEN_BRACE] + joined(after, COMMA));
            } else {
                assert(joined(before, COMMA) =~= Seq::<u8>::empty());
                assert(out@ =~= head + seq![OPEN_BRACE] + joined(after, COMMA));
            }
        }
        j += 1;
    }
    out.push(CLOSE_BRACE);
    proof {
        assert(extensions@.take(j as int) =~= extensions@);
        assert(out@ =~= head + (seq![OPEN_BRACE] + joined(extensions@, COMMA) + seq![CLOSE_BRACE]));
    }
    out
}

/// The groups of the allowed files: the keys of their directories, how
/// each directory is written, and the extensions found in it.
struct Groups {
    dirs: SortedSet,
    spelled: Vec<Vec<u8>>,
    extensions: Vec<SortedSet>,
}

/// Groups the allowed files by their directory.
fn group(files: &Vec<String>, policy: &ContentPolicy) -> (groups: Groups)
    requires
        policy.wf(),
    ensures
        grouped(groups.dirs, groups.spelled@, groups.extensions@, texts_bytes(files@)),
{
    let ghost all = texts_bytes(files@);
    let mut dirs = SortedSet::new();
    let mut spelled: Vec<Vec<u8>> = Vec::new();
    let mut extensions: Vec<SortedSet> = Vec::new();
    let mut n: usize = 0;
    proof {
        assert(group_dirs(all.take(0)) =~= Set::<Seq<u8>>::empty());
    }
    while n < files.len()
        invariant
            policy.wf(),
            all == texts_bytes(files@),
            n <= files@.len(),
            grouped(dirs, spelled@, extensions@, all.take(n as int)),
        decreases files@.len() - n,
    {
        let path = files[n].as_str().as_bytes();
        let ghost before = all.take(n as int);
        let ghost after = all.take(n + 1);
        let ghost dirs0 = dirs;
        let ghost exts0 = extensions@;
        let ghost spelled0 = spelled@;
        proof {
            assert(path@ == all[n as int]);
            lemma_groups_step(all, n as int);
            encode_utf8_valid_utf8(files@[n as int]@);
            lemma_parts_are_text(path@);
            assert forall|dir: Seq<u8>| #[trigger]
                spelling(after, dir) == if group_dirs(before).contains(dir) {
                    spelling(before, dir)
                } else if dir_of(path@) == Some(dir) {
                    parent_of(path@)->0
                } else {
                    Seq::empty()
                } by {
                lemma_spelling_step(all, n as int, dir);
            }
        }
        let mut counted = false;
        if policy.allows(path) {
            match (parent(path), extension(path)) {
                (Some(dir), Some(ext)) => {
                    let dir_key = key(dir);
                    let place = dirs.put(dir_key.as_slice());
                    if !place.found {
                        extensions.insert(place.index, SortedSet::new());
                        spelled.insert(place.index, slice_to_vec(dir));
                    }
                    let at = place.index;
                    let ghost set0 = extensions@[at as int];
                    proof {
                        if !place.found {
                            lemma_no_dir_no_extensions(before, dir_key@);
                        }
                    }
                    extensions[at].insert(ext);
                    counted = true;
                    proof {
                        let set = extensions@[at as int];
                        assert forall|j: int| 0 <= j < set@.len() implies valid_utf8(
                            #[trigger] set@[j],
                        ) by {
                            assert(set@.contains(set@[j]));
                            assert(set.elements().contains(set@[j]));
                            if set@[j] != ext@ {
                                assert(set0.elements().contains(set@[j]));
                                let m = choose|m: int| 0 <= m < set0@.len() && set0@[m] == set@[j];
                                assert(valid_utf8(set0@[m]));
                            }
                        }
                        let exts2 = extensions@;
                        assert forall|k: int| 0 <= k < exts2.len() implies {
                            &&& (#[trigger] exts2[k]).wf()
                            &&& exts2[k].elements() == group_extensions(after, dirs@[k])
                            &&& forall|j: int|
                                0 <= j < exts2[k]@.len() ==> valid_utf8(#[trigger] exts2[k]@[j])
                        } by {
                            if k != at {
                                if dirs@[k] == dir_key@ {
                                    if k < at {
                                        lemma_lex_asymmetric(dirs@[k], dirs@[at as int]);
                                    } else {
                                        lemma_lex_asymmetric(dirs@[at as int], dirs@[k]);
                                    }
                                }
                                if place.found {
                                    assert(exts2[k] == exts0[k]);
                                } else if k < at {
                                    assert(exts2[k] == exts0[k]);
                                    assert(dirs@[k] == dirs0@[k]);
                                } else {
                                    assert(exts2[k] == exts0[k - 1]);
                                    assert(dirs@[k] == dirs0@[k - 1]);
                                }
                            }
                        }
                        assert forall|k: int| 0 <= k < spelled@.len() implies (
                        #[trigger] spelled@[k])@ == spelling(after, dirs@[k]) && valid_utf8(
                            spelled@[k]@,
                        ) by {
                            if place.found {
                                assert(spelled@[k] == spelled0[k]);
                                assert(dirs0@.contains(dirs0@[k]));
                                assert(dirs0.elements().contains(dirs0@[k]));
                            } else if k < at {
                                assert(spelled@[k] == spelled0[k]);
                                assert(dirs@[k] == dirs0@[k]);
                                assert(dirs0@.contains(dirs0@[k]));
                                assert(dirs0.elements().contains(dirs0@[k]));
                            } else if k > at {
                                assert(spelled@[k] == spelled0[k - 1]);
                                assert(dirs@[k] == dirs0@[k - 1]);
                                assert(dirs0@.contains(dirs0@[k - 1]));
                                assert(dirs0.elements().contains(dirs0@[k - 1]));
                            } else {
                                assert(!dirs0.elements().contains(dir_key@));
                            }
                        }
                    }
                },
                _ => {},
            }
        }
        proof {
            if !counted {
                assert forall|k: int| 0 <= k < spelled@.len() implies (#[trigger] spelled@[k])@
                    == spelling(after, dirs@[k]) by {
                    assert(dirs@.contains(dirs@[k]));
                    assert(dirs.elements().contains(dirs@[k]));
                }
            }
        }
        n += 1;
    }
    assert(all.take(n as int) =~= all);
    Groups { dirs, spelled, extensions }
}

/// The glob patterns for the files of the tree under `args.base`.
///
/// `walk` is what walking the tree gave. Where the root could not be
/// reached, the whole operation fails. Else the files that the content
/// policy allows are grouped by their directory; each directory gives one
/// pattern, which names the extensions found in it.
pub fn resolve_content_paths(args: ContentPathInfo, walk: WalkOutcome) -> (r: Result<
    Vec<String>,
    ResolveError,
>)
    ensures
        bytes_of_result(r) == resolved(encode_utf8(args.base@), walk),
{
    let files = match walk {
        WalkOutcome::Files(files) => files,
        WalkOutcome::RootUnreachable => {
            return Err(ResolveError::RootUnreachable);
        },
    };
    let policy = ContentPolicy::standard();
    let root = key(args.base.as_str().as_bytes());
    let groups = group(&files, &policy);
    let ghost all = texts_bytes(files@);
    let mut patterns: Vec<String> = Vec::new();
    let mut k: usize = 0;
    while k < groups.dirs.len()
        invariant
            grouped(groups.dirs, groups.spelled@, groups.extensions@, all),
            root@ == path_key(encode_utf8(args.base@)),
            k <= groups.dirs@.len(),
            patterns@.len() == k,
            forall|m: int|
                0 <= m < k ==> text_bytes(#[trigger] patterns@[m]) == pattern_of(
                    groups.spelled@[m]@,
                    groups.dirs@[m] == root@,
                    groups.extensions@[m]@,
                ),
        decreases groups.dirs@.len() - k,
    {
        if let Some(dir) = groups.dirs.get(k) {
            let at_root = same_bytes(dir.as_slice(), root.as_slice());
            let bytes = pattern(groups.spelled[k].as_slice(), at_root, &groups.extensions[k]);
            proof {
                lemma_pattern_is_text(
                    groups.spelled@[k as int]@,
                    at_root,
                    groups.extensions@[k as int]@,
                );
            }
            // The pattern is made of texts, so the conversion gives a string.
            if let Some(text) = string_from_utf8(bytes) {
                patterns.push(text);
            }
        }
        k += 1;
    }
    proof {
        lemma_ascending_listing(groups.dirs@, group_dirs(all));
        assert forall|m: int| 0 <= m < groups.dirs@.len() implies ascending_listing(
            group_extensions(all, groups.dirs@[m]),
        ) == groups.extensions@[m]@ by {
            lemma_ascending_listing(
                groups.extensions@[m]@,
                group_extensions(all, groups.dirs@[m]),
            );
        }
        assert(texts_bytes(patterns@) =~= glob_patterns(encode_utf8(args.base@), all));
    }
    Ok(patterns)
}

/// Whether the ignore rules hide `path`: whether no path among `walked`,
/// the paths that a walk of the tree which honours those rules came upon,
/// is the same path.
pub fn is_git_ignored_content_path(walked: &Vec<String>, path: &str) -> (r: bool)
    ensures
        r == !exists|i: int|
            0 <= i < walked@.len() && same_path(
                text_bytes(#[trigger] walked@[i]),
                encode_utf8(path@),
            ),
{
    let wanted = key(path.as_bytes());
    let mut i: usize = 0;
    while i < walked.len()
        invariant
            i <= walked@.len(),
            wanted@ == path_key(encode_utf8(path@)),
            forall|k: int|
                0 <= k < i ==> !same_path(text_bytes(#[trigger] walked@[k]), encode_utf8(path@)),
        decreases walked@.len() - i,
    {
        let found = key(walked[i].as_str().as_bytes());
        if same_bytes(found.as_slice(), wanted.as_slice()) {
            return false;
        }
        i += 1;
    }
    true
}

} // verus!
