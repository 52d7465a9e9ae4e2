//! The content policy: which paths may hold candidates. Three fixed tables
//! decide it: file names that are never content, extensions that are never
//! content, and extensions of binary files.

use crate::paths::extension;
use crate::paths::extension_of;
use crate::paths::file_name;
use crate::paths::file_name_of;
use crate::text::same_bytes;
use vstd::prelude::*;
use vstd::utf8::encode_utf8;

verus! {

/// The file names that are never content.
pub open spec fn ignored_file_names() -> Seq<Seq<char>> {
    seq![
        "package-lock.json"@, "pnpm-lock.yaml"@, "bun.lockb"@,
    ]
}

/// The extensions that are never content.
pub open spec fn ignored_extension_names() -> Seq<Seq<char>> {
    seq![
        "less"@, "lock"@, "sass"@, "scss"@, "styl"@,
    ]
}

/// The extensions of binary files.
pub open spec fn binary_extension_names() -> Seq<Seq<char>> {
    seq![
        "3dm"@, "3ds"@, "3g2"@, "3gp"@, "7z"@, "a"@, "aac"@, "adp"@, "ai"@, "aif"@, "aiff"@,
        "alz"@, "ape"@, "apk"@, "appimage"@, "ar"@, "arj"@, "asf"@, "au"@, "avi"@, "bak"@,
        "baml"@, "bh"@, "bin"@, "bk"@, "bmp"@, "btif"@, "bz2"@, "bzip2"@, "cab"@, "caf"@,
        "cgm"@, "class"@, "cmx"@, "cpio"@, "cr2"@, "cur"@, "dat"@, "dcm"@, "deb"@, "dex"@,
        "djvu"@, "dll"@, "dmg"@, "dng"@, "doc"@, "docm"@, "docx"@, "dot"@, "dotm"@, "dra"@,
        "DS_Store"@, "dsk"@, "dts"@, "dtshd"@, "dvb"@, "dwg"@, "dxf"@, "ecelp4800"@,
        "ecelp7470"@, "ecelp9600"@, "egg"@, "eol"@, "eot"@, "epub"@, "exe"@, "f4v"@, "fbs"@,
        "fh"@, "fla"@, "flac"@, "flatpak"@, "fli"@, "flv"@, "fpx"@, "fst"@, "fvt"@, "g3"@,
        "gh"@, "gif"@, "graffle"@, "gz"@, "gzip"@, "h261"@, "h263"@, "h264"@, "icns"@, "ico"@,
        "ief"@, "img"@, "ipa"@, "iso"@, "jar"@, "jpeg"@, "jpg"@, "jpgv"@, "jpm"@, "jxr"@,
        "key"@, "ktx"@, "lha"@, "lib"@, "lvp"@, "lz"@, "lzh"@, "lzma"@, "lzo"@, "m3u"@, "m4a"@,
        "m4v"@, "mar"@, "mdi"@, "mht"@, "mid"@, "midi"@, "mj2"@, "mka"@, "mkv"@, "mmr"@, "mng"@,
        "mobi"@, "mov"@, "movie"@, "mp3"@, "mp4"@, "mp4a"@, "mpeg"@, "mpg"@, "mpga"@, "mxu"@,
        "nef"@, "npx"@, "numbers"@, "nupkg"@, "o"@, "odp"@, "ods"@, "odt"@, "oga"@, "ogg"@,
        "ogv"@, "otf"@, "ott"@, "pages"@, "pbm"@, "pcx"@, "pdb"@, "pdf"@, "pea"@, "pgm"@,
        "pic"@, "png"@, "pnm"@, "pot"@, "potm"@, "potx"@, "ppa"@, "ppam"@, "ppm"@, "pps"@,
        "ppsm"@, "ppsx"@, "ppt"@, "pptm"@, "pptx"@, "psd"@, "pya"@, "pyc"@, "pyo"@, "pyv"@,
        "qt"@, "rar"@, "ras"@, "raw"@, "resources"@, "rgb"@, "rip"@, "rlc"@, "rmf"@, "rmvb"@,
        "rpm"@, "rtf"@, "rz"@, "s3m"@, "s7z"@, "scpt"@, "sgi"@, "shar"@, "snap"@, "sil"@,
        "sketch"@, "slk"@, "smv"@, "snk"@, "so"@, "stl"@, "suo"@, "sub"@, "swf"@, "tar"@,
        "tbz"@, "tbz2"@, "tga"@, "tgz"@, "thmx"@, "tif"@, "tiff"@, "tlz"@, "ttc"@, "ttf"@,
        "txz"@, "udf"@, "uvh"@, "uvi"@, "uvm"@, "uvp"@, "uvs"@, "uvu"@, "viv"@, "vob"@, "war"@,
        "wav"@, "wax"@, "wbmp"@, "wdp"@, "weba"@, "webm"@, "webp"@, "whl"@, "wim"@, "wm"@,
        "wma"@, "wmv"@, "wmx"@, "woff"@, "woff2"@, "wrm"@, "wvx"@, "xbm"@, "xif"@, "xla"@,
        "xlam"@, "xls"@, "xlsb"@, "xlsm"@, "xlsx"@, "xlt"@, "xltm"@, "xltx"@, "xm"@, "xmind"@,
        "xpi"@, "xpm"@, "xwd"@, "xz"@, "z"@, "zip"@, "zipx"@,
    ]
}

/// The names that a table of string literals holds.
pub open spec fn names(table: Seq<&'static str>) -> Seq<Seq<char>> {
    Seq::new(table.len(), |i: int| table[i]@)
}

/// Whether the bytes `x` spell one of the names of `table`.
pub open spec fn is_listed_in(x: Seq<u8>, table: Seq<Seq<char>>) -> bool {
    exists|i: int| 0 <= i < table.len() && encode_utf8(#[trigger] table[i]) == x
}

/// Whether a path may hold candidates: it has a file name that is not
/// ignored, and an extension that is neither ignored nor binary.
pub open spec fn is_allowed_path(path: Seq<u8>) -> bool {
    &&& file_name_of(path) matches Some(name) && !is_listed_in(name, ignored_file_names())
    &&& extension_of(path) matches Some(ext) && !is_listed_in(ext, ignored_extension_names())
        && !is_listed_in(ext, binary_extension_names())
}

/// Whether the bytes `x` spell one of the names of `table`.
fn lists(table: &Vec<&'static str>, x: &[u8]) -> (r: bool)
    ensures
        r == is_listed_in(x@, names(table@)),
{
    let mut i: usize = 0;
    while i < table.len()
        invariant
            i <= table@.len(),
            forall|k: int| 0 <= k < i ==> encode_utf8(#[trigger] names(table@)[k]) != x@,
        decreases table@.len() - i,
    {
        if same_bytes(table[i].as_bytes(), x) {
            assert(encode_utf8(names(table@)[i as int]) == x@);
            return true;
        }
        i += 1;
    }
    false
}

/// The three tables, ready for lookups.
pub struct ContentPolicy {
    ignored_files: Vec<&'static str>,
    ignored_extensions: Vec<&'static str>,
    binary_extensions: Vec<&'static str>,
}

impl ContentPolicy {
    /// The tables hold the fixed names.
    pub closed spec fn wf(&self) -> bool {
        &&& names(self.ignored_files@) == ignored_file_names()
        &&& names(self.ignored_extensions@) == ignored_extension_names()
        &&& names(self.binary_extensions@) == binary_extension_names()
    }

    /// Loads the tables.
    pub fn standard() -> (policy: Self)
        ensures
            policy.wf(),
    {
        let ignored_files = vec![
            "package-lock.json", "pnpm-lock.yaml", "bun.lockb",
        ];
        let ignored_extensions = vec![
            "less", "lock", "sass", "scss", "styl",
        ];
        let binary_extensions = vec![
            "3dm", "3ds", "3g2", "3gp", "7z", "a", "aac", "adp", "ai", "aif", "aiff", "alz", "ape",
            "apk", "appimage", "ar", "arj", "asf", "au", "avi", "bak", "baml", "bh", "bin", "bk",
            "bmp", "btif", "bz2", "bzip2", "cab", "caf", "cgm", "class", "cmx", "cpio", "cr2",
            "cur", "dat", "dcm", "deb", "dex", "djvu", "dll", "dmg", "dng", "doc", "docm", "docx",
            "dot", "dotm", "dra", "DS_Store", "dsk", "dts", "dtshd", "dvb", "dwg", "dxf",
            "ecelp4800", "ecelp7470", "ecelp9600", "egg", "eol", "eot", "epub", "exe", "f4v", "fbs",
            "fh", "fla", "flac", "flatpak", "fli", "flv", "fpx", "fst", "fvt", "g3", "gh", "gif",
            "graffle", "gz", "gzip", "h261", "h263", "h264", "icns", "ico", "ief", "img", "ipa",
            "iso", "jar", "jpeg", "jpg", "jpgv", "jpm", "jxr", "key", "ktx", "lha", "lib", "lvp",
            "lz", "lzh", "lzma", "lzo", "m3u", "m4a", "m4v", "mar", "mdi", "mht", "mid", "midi",
            "mj2", "mka", "mkv", "mmr", "mng", "mobi", "mov", "movie", "mp3", "mp4", "mp4a", "mpeg",
            "mpg", "mpga", "mxu", "nef", "npx", "numbers", "nupkg", "o", "odp", "ods", "odt", "oga",
            "ogg", "ogv", "otf", "ott", "pages", "pbm", "pcx", "pdb", "pdf", "pea", "pgm", "pic",
            "png", "pnm", "pot", "potm", "potx", "ppa", "ppam", "ppm", "pps", "ppsm", "ppsx", "ppt",
            "pptm", "pptx", "psd", "pya", "pyc", "pyo", "pyv", "qt", "rar", "ras", "raw",
            "resources", "rgb", "rip", "rlc", "rmf", "rmvb", "rpm", "rtf", "rz", "s3m", "s7z",
            "scpt", "sgi", "shar", "snap", "sil", "sketch", "slk", "smv", "snk", "so", "stl", "suo",
            "sub", "swf", "tar", "tbz", "tbz2", "tga", "tgz", "thmx", "tif", "tiff", "tlz", "ttc",
            "ttf", "txz", "udf", "uvh", "uvi", "uvm", "uvp", "uvs", "uvu", "viv", "vob", "war",
            "wav", "wax", "wbmp", "wdp", "weba", "webm", "webp", "whl", "wim", "wm", "wma", "wmv",
            "wmx", "woff", "woff2", "wrm", "wvx", "xbm", "xif", "xla", "xlam", "xls", "xlsb",
            "xlsm", "xlsx", "xlt", "xltm", "xltx", "xm", "xmind", "xpi", "xpm", "xwd", "xz", "z",
            "zip", "zipx",
        ];
        assert(names(ignored_files@) =~= ignored_file_names());
        assert(names(ignored_extensions@) =~= ignored_extension_names());
        assert(names(binary_extensions@) =~= binary_extension_names());
        ContentPolicy { ignored_files, ignored_extensions, binary_extensions }
    }

    /// Whether `path` may hold candidates.
    pub fn allows(&self, path: &[u8]) -> (r: bool)
        requires
            self.wf(),
        ensures
            r == is_allowed_path(path@),
    {
        match file_name(path) {
            None => false,
            Some(name) => {
                if lists(&self.ignored_files, name) {
                    false
                } else {
                    match extension(path) {
                        None => false,
                        Some(ext) => !lists(&self.ignored_extensions, ext) && !lists(
                            &self.binary_extensions,
                            ext,
                        ),
                    }
                }
            },
        }
    }
}

/// Whether the path may hold candidates: its file name is not in the table
/// of ignored files, and it has an extension that is in neither the table of
/// ignored extensions nor that of binary extensions.
pub fn is_allowed_content_path(path: &str) -> (r: bool)
    ensures
        r == is_allowed_path(encode_utf8(path@)),
{
    ContentPolicy::standard().allows(path.as_bytes())
}

/// The name of the directory that holds version-control data, `.git`.
pub open spec fn git_dir_name() -> Seq<u8> {
    seq![0x2eu8, 0x67u8, 0x69u8, 0x74u8]
}

/// Whether a walk of the tree keeps an entry: a directory is entered unless
/// its name is `.git`, and anything else is kept where the content policy
/// allows its path.
pub open spec fn is_kept_entry(path: Seq<u8>, is_dir: bool) -> bool {
    if is_dir {
        file_name_of(path) != Some(git_dir_name())
    } else {
        is_allowed_path(path)
    }
}

/// The content policy treats two paths alike that have the same file name:
/// the directories before it do not count.
pub proof fn lemma_allowed_by_file_name(p: Seq<u8>, q: Seq<u8>)
    requires
        file_name_of(p) == file_name_of(q),
    ensures
        is_allowed_path(p) == is_allowed_path(q),
{
}

/// Whether a walk of the tree keeps the entry at `path`.
pub fn keeps_entry(path: &str, is_dir: bool) -> (r: bool)
    ensures
        r == is_kept_entry(encode_utf8(path@), is_dir),
{
    if is_dir {
        let git: [u8; 4] = [0x2e, 0x67, 0x69, 0x74];
        assert(git@ =~= git_dir_name());
        match file_name(path.as_bytes()) {
            Some(name) => !same_bytes(name, git.as_slice()),
            None => true,
        }
    } else {
        is_allowed_content_path(path)
    }
}

} // verus!
