use oxide::is_allowed_content_path;
use oxide::is_git_ignored_content_path;
use oxide::parse_candidate_strings_from_files;
use oxide::paths::extension;
use oxide::paths::file_name;
use oxide::paths::last_index;
use oxide::paths::parent;
use oxide::policy::keeps_entry;
use oxide::paths::is_same_path;
use oxide::paths::key;
use oxide::paths::trim;
use oxide::text::same_bytes;
use oxide::policy::ContentPolicy;
use oxide::resolve_content_paths;
use oxide::ContentPathInfo;
use oxide::ResolveError;
use oxide::WalkOutcome;

fn resolve(root: &str, files: &[&str]) -> Vec<String> {
    resolve_content_paths(
        ContentPathInfo { base: root.to_string() },
        WalkOutcome::Files(files.iter().map(|f| f.to_string()).collect()),
    )
    .unwrap()
}

#[test]
fn root_files_match_flat_and_subdirectories_deep() {
    let patterns = resolve("src", &["src/a.js", "src/b.js", "src/sub/c.ts"]);
    assert_eq!(patterns, vec!["src/*.js", "src/sub/**/*.ts"]);
}

#[test]
fn binary_file_gives_no_pattern_and_no_candidate() {
    let patterns = resolve("root", &["root/img.png"]);
    assert_eq!(patterns, Vec::<String>::new());
    assert!(!is_allowed_content_path("root/img.png"));
    let out = parse_candidate_strings_from_files(Vec::new(), Vec::new());
    assert_eq!(out, Vec::<String>::new());
}

#[test]
fn several_extensions_become_an_alternation_in_order() {
    let patterns = resolve("src", &["src/b.ts", "src/a.js", "src/c.html", "src/d.js"]);
    assert_eq!(patterns, vec!["src/*.{html,js,ts}"]);
}

#[test]
fn several_extensions_below_the_root() {
    let patterns = resolve("src", &["src/ui/x.vue", "src/ui/y.jsx"]);
    assert_eq!(patterns, vec!["src/ui/**/*.{jsx,vue}"]);
}

#[test]
fn directories_come_in_ascending_order() {
    let patterns = resolve("app", &["app/z/a.js", "app/a/b.js", "app/m.js", "app/a/c/d.ts"]);
    assert_eq!(patterns, vec!["app/*.js", "app/a/**/*.js", "app/a/c/**/*.ts", "app/z/**/*.js"]);
}

#[test]
fn files_that_are_not_allowed_are_left_out() {
    let patterns = resolve(
        "src",
        &[
            "src/package-lock.json",
            "src/style.scss",
            "src/font.woff2",
            "src/Makefile",
            "src/.gitignore",
            "src/index.html",
        ],
    );
    assert_eq!(patterns, vec!["src/*.html"]);
}

#[test]
fn no_files_no_patterns() {
    assert_eq!(resolve("src", &[]), Vec::<String>::new());
}

#[test]
fn root_is_the_same_path_however_it_is_written() {
    assert_eq!(resolve("src/", &["src/a.js"]), vec!["src/*.js"]);
    assert_eq!(resolve("src//", &["src/a.js"]), vec!["src/*.js"]);
    assert_eq!(resolve("src/.", &["src/a.js"]), vec!["src/*.js"]);
    assert_eq!(resolve("src/./", &["src/a.js", "src/sub/b.ts"]), vec![
        "src/*.js",
        "src/sub/**/*.ts"
    ]);
    assert_eq!(resolve("a//b", &["a//b/c.js"]), vec!["a//b/*.js"]);
    assert_eq!(resolve("a/b", &["a//b/c.js", "a/./b/d.ts"]), vec!["a//b/*.{js,ts}"]);
    assert_eq!(resolve(".", &["./a.js"]), vec!["./*.js"]);
    assert_eq!(resolve("./", &["./a.js"]), vec!["./*.js"]);
    assert_eq!(resolve("./src", &["./src/a.js"]), vec!["./src/*.js"]);
    assert_eq!(resolve("/", &["/a.js"]), vec!["//*.js"]);
    assert_eq!(resolve("", &["a.js"]), vec!["/*.js"]);
}

#[test]
fn a_directory_that_is_another_path_is_not_the_root() {
    assert_eq!(resolve("src", &["./src/a.js"]), vec!["./src/**/*.js"]);
    assert_eq!(resolve("src", &["/src/a.js"]), vec!["/src/**/*.js"]);
    assert_eq!(resolve("src", &["src2/a.js"]), vec!["src2/**/*.js"]);
    assert_eq!(resolve("src/sub", &["src/a.js"]), vec!["src/**/*.js"]);
    assert_eq!(resolve("src/..", &["src/a.js"]), vec!["src/**/*.js"]);
}

#[test]
fn a_root_that_cannot_be_reached_fails_the_whole_operation() {
    let failed = resolve_content_paths(
        ContentPathInfo { base: "nowhere".to_string() },
        WalkOutcome::RootUnreachable,
    );
    assert_eq!(failed, Err(ResolveError::RootUnreachable));
    let empty = resolve_content_paths(
        ContentPathInfo { base: "empty".to_string() },
        WalkOutcome::Files(Vec::new()),
    );
    assert_eq!(empty, Ok(Vec::new()));
}

#[test]
fn directories_are_ordered_component_by_component() {
    assert_eq!(resolve(".", &["app-old/a.js", "app/sub/b.js"]), vec![
        "app/sub/**/*.js",
        "app-old/**/*.js"
    ]);
    assert_eq!(resolve("x", &["b/a.js", "a/b/c.js", "a/a.js", "a!/a.js", "a/b.ts"]), vec![
        "a/**/*.{js,ts}",
        "a/b/**/*.js",
        "a!/**/*.js",
        "b/**/*.js"
    ]);
}

#[test]
fn empty_comes_before_root_before_dot_before_dot_dot_before_names() {
    assert_eq!(
        resolve("x", &["-x/a.js", "../x/a.js", "./x/a.js", "/x/a.js", "a.js", "/a.js", "x/a.js"]),
        vec![
            "/**/*.js",
            "//**/*.js",
            "/x/**/*.js",
            "./x/**/*.js",
            "../x/**/*.js",
            "-x/**/*.js",
            "x/*.js"
        ]
    );
}

#[test]
fn a_directory_is_written_as_the_first_file_has_it() {
    assert_eq!(resolve("x", &["a//b/c.js", "a/b/d.js"]), vec!["a//b/**/*.js"]);
    assert_eq!(resolve("x", &["a/b/d.js", "a//b/c.js"]), vec!["a/b/**/*.js"]);
}

#[test]
fn directory_names_beyond_ascii_are_kept() {
    assert_eq!(resolve("src", &["src/caf\u{e9}/a.js"]), vec!["src/caf\u{e9}/**/*.js"]);
}

#[test]
fn allowed_paths() {
    assert!(is_allowed_content_path("src/index.html"));
    assert!(is_allowed_content_path("index.tsx"));
    assert!(is_allowed_content_path("a/b/c/page.min.js"));
    assert!(is_allowed_content_path("package.json"));
    assert!(is_allowed_content_path("src/.eslintrc.js"));
    assert!(is_allowed_content_path("src/odd."));
}

#[test]
fn only_the_file_name_counts() {
    assert!(is_allowed_content_path("src/a.js/"));
    assert!(is_allowed_content_path("src/a.js//"));
    assert!(is_allowed_content_path("src/a.js/."));
    assert!(is_allowed_content_path(".git/a.js"));
    assert!(is_allowed_content_path("node_modules/x/a.js"));
    assert!(is_allowed_content_path("a.png/b.js"));
    assert!(!is_allowed_content_path("src/a.png/"));
    assert!(!is_allowed_content_path("src/package-lock.json/"));
    assert!(!is_allowed_content_path("src/a.js/.."));
}

#[test]
fn ignored_file_names_are_rejected() {
    assert!(!is_allowed_content_path("package-lock.json"));
    assert!(!is_allowed_content_path("web/pnpm-lock.yaml"));
    assert!(!is_allowed_content_path("web/bun.lockb"));
}

#[test]
fn ignored_extensions_are_rejected() {
    for ext in ["less", "lock", "sass", "scss", "styl"] {
        assert!(!is_allowed_content_path(&format!("src/theme.{}", ext)));
    }
}

#[test]
fn binary_extensions_are_rejected() {
    for ext in ["png", "jpg", "gif", "woff2", "zip", "pdf", "3dm", "zipx", "DS_Store", "exe"] {
        assert!(!is_allowed_content_path(&format!("assets/file.{}", ext)));
    }
}

#[test]
fn paths_without_extension_are_rejected() {
    assert!(!is_allowed_content_path("Makefile"));
    assert!(!is_allowed_content_path("src/.gitignore"));
    assert!(!is_allowed_content_path("src/"));
    assert!(!is_allowed_content_path("/"));
    assert!(!is_allowed_content_path("."));
    assert!(!is_allowed_content_path(""));
    assert!(!is_allowed_content_path("src/.."));
    assert!(!is_allowed_content_path("a.b/c"));
}

#[test]
fn policy_can_be_loaded_once_and_asked_often() {
    let policy = ContentPolicy::standard();
    assert!(policy.allows(b"src/a.html"));
    assert!(!policy.allows(b"src/a.png"));
    assert!(policy.allows(b"src/a.PNG"));
}

#[test]
fn walk_enters_every_directory_but_git() {
    assert!(!keeps_entry("repo/.git", true));
    assert!(!keeps_entry(".git", true));
    assert!(!keeps_entry("repo/.git/", true));
    assert!(keeps_entry(".", true));
    assert!(keeps_entry("/", true));
    assert!(keeps_entry("repo/.github", true));
    assert!(keeps_entry("repo/.hidden", true));
    assert!(keeps_entry("repo/git", true));
    assert!(keeps_entry("repo/node_modules", true));
}

#[test]
fn walk_keeps_the_files_that_are_allowed() {
    assert!(keeps_entry("repo/src/a.html", false));
    assert!(!keeps_entry("repo/src/a.png", false));
    assert!(!keeps_entry("repo/.git", false));
}

#[test]
fn path_missing_from_the_walk_is_ignored() {
    let walked = vec!["src".to_string(), "src/a.js".to_string(), "src/b.js".to_string()];
    assert!(!is_git_ignored_content_path(&walked, "src/a.js"));
    assert!(is_git_ignored_content_path(&walked, "src/c.js"));
    assert!(is_git_ignored_content_path(&walked, "src/a.j"));
    assert!(is_git_ignored_content_path(&Vec::new(), "src/a.js"));
}

#[test]
fn the_walk_is_searched_for_the_same_path() {
    let walked = vec!["src".to_string(), "src/a.js".to_string(), "./lib/b.js".to_string()];
    assert!(!is_git_ignored_content_path(&walked, "src//a.js"));
    assert!(!is_git_ignored_content_path(&walked, "src/a.js/"));
    assert!(!is_git_ignored_content_path(&walked, "src/./a.js"));
    assert!(!is_git_ignored_content_path(&walked, "src/"));
    assert!(!is_git_ignored_content_path(&walked, ".//lib/b.js"));
    assert!(is_git_ignored_content_path(&walked, "./src/a.js"));
    assert!(is_git_ignored_content_path(&walked, "lib/b.js"));
    assert!(is_git_ignored_content_path(&walked, "src/../src/a.js"));
}

#[test]
fn file_names() {
    assert_eq!(file_name(b"src/a.js"), Some(b"a.js".as_slice()));
    assert_eq!(file_name(b"a.js"), Some(b"a.js".as_slice()));
    assert_eq!(file_name(b"/a"), Some(b"a".as_slice()));
    assert_eq!(file_name(b"src/.env"), Some(b".env".as_slice()));
    assert_eq!(file_name(b"src/..."), Some(b"...".as_slice()));
    assert_eq!(file_name(b"src/"), Some(b"src".as_slice()));
    assert_eq!(file_name(b"src/a.js/"), Some(b"a.js".as_slice()));
    assert_eq!(file_name(b"src/a.js//"), Some(b"a.js".as_slice()));
    assert_eq!(file_name(b"src/a.js/./"), Some(b"a.js".as_slice()));
    assert_eq!(file_name(b"./a"), Some(b"a".as_slice()));
    assert_eq!(file_name(b"//"), None);
    assert_eq!(file_name(b"./"), None);
    assert_eq!(file_name(b"/."), None);
    assert_eq!(file_name(b""), None);
    assert_eq!(file_name(b"/"), None);
    assert_eq!(file_name(b"."), None);
    assert_eq!(file_name(b"src/."), Some(b"src".as_slice()));
    assert_eq!(file_name(b".."), None);
    assert_eq!(file_name(b"src/.."), None);
}

#[test]
fn extensions() {
    assert_eq!(extension(b"src/a.js"), Some(b"js".as_slice()));
    assert_eq!(extension(b"a.tar.gz"), Some(b"gz".as_slice()));
    assert_eq!(extension(b"src/a."), Some(b"".as_slice()));
    assert_eq!(extension(b"src/.env.local"), Some(b"local".as_slice()));
    assert_eq!(extension(b"src/.env"), None);
    assert_eq!(extension(b"src/a"), None);
    assert_eq!(extension(b"src/a.js/"), Some(b"js".as_slice()));
    assert_eq!(extension(b"src/a.js/."), Some(b"js".as_slice()));
    assert_eq!(extension(b"a.b/c"), None);
    assert_eq!(extension(b"src/.."), None);
    assert_eq!(extension(b""), None);
}

#[test]
fn parents() {
    assert_eq!(parent(b"src/sub/a.js"), Some(b"src/sub".as_slice()));
    assert_eq!(parent(b"src/a.js"), Some(b"src".as_slice()));
    assert_eq!(parent(b"a.js"), Some(b"".as_slice()));
    assert_eq!(parent(b"/a.js"), Some(b"/".as_slice()));
    assert_eq!(parent(b"/usr/a"), Some(b"/usr".as_slice()));
    assert_eq!(parent(b"/"), None);
    assert_eq!(parent(b""), None);
    assert_eq!(parent(b"//"), None);
}

#[test]
fn parents_end_with_the_component_before() {
    assert_eq!(parent(b"src/a.js/"), Some(b"src".as_slice()));
    assert_eq!(parent(b"src//a.js"), Some(b"src".as_slice()));
    assert_eq!(parent(b"src/./a.js"), Some(b"src".as_slice()));
    assert_eq!(parent(b"a//b/c"), Some(b"a//b".as_slice()));
    assert_eq!(parent(b"./a"), Some(b".".as_slice()));
    assert_eq!(parent(b"/./a"), Some(b"/".as_slice()));
    assert_eq!(parent(b"//a"), Some(b"/".as_slice()));
    assert_eq!(parent(b"."), Some(b"".as_slice()));
    assert_eq!(parent(b".."), Some(b"".as_slice()));
    assert_eq!(parent(b"a/.."), Some(b"a".as_slice()));
    assert_eq!(parent(b"a/b/."), Some(b"a".as_slice()));
}

#[test]
fn trim_leaves_out_what_belongs_to_no_component() {
    assert_eq!(trim(b"a/b//"), b"a/b".as_slice());
    assert_eq!(trim(b"a/b/."), b"a/b".as_slice());
    assert_eq!(trim(b"a/b/./"), b"a/b".as_slice());
    assert_eq!(trim(b"a/b/.."), b"a/b/..".as_slice());
    assert_eq!(trim(b"a/b."), b"a/b.".as_slice());
    assert_eq!(trim(b"/"), b"/".as_slice());
    assert_eq!(trim(b"//"), b"/".as_slice());
    assert_eq!(trim(b"/."), b"/".as_slice());
    assert_eq!(trim(b"."), b".".as_slice());
    assert_eq!(trim(b"./"), b".".as_slice());
    assert_eq!(trim(b"./."), b".".as_slice());
    assert_eq!(trim(b""), b"".as_slice());
}

#[test]
fn all_ways_of_writing_a_path_are_the_same_path() {
    assert!(is_same_path(b"src", b"src/"));
    assert!(is_same_path(b"src", b"src//"));
    assert!(is_same_path(b"src", b"src/."));
    assert!(is_same_path(b"a/b", b"a//b"));
    assert!(is_same_path(b"a/b", b"a/./b/"));
    assert!(is_same_path(b"/a", b"//a"));
    assert!(is_same_path(b"/a", b"/./a"));
    assert!(is_same_path(b"./a", b".//a"));
    assert!(is_same_path(b"", b""));
    assert!(is_same_path(b"/", b"//"));
}

#[test]
fn different_paths_are_told_apart() {
    assert!(!is_same_path(b"src", b"src2"));
    assert!(!is_same_path(b"src", b"./src"));
    assert!(!is_same_path(b"src", b"/src"));
    assert!(!is_same_path(b"a/b", b"ab"));
    assert!(!is_same_path(b"a/b", b"a/../b"));
    assert!(!is_same_path(b"a", b"a/.."));
    assert!(!is_same_path(b"", b"/"));
    assert!(!is_same_path(b"", b"."));
    assert!(!is_same_path(b".", b".."));
    assert!(!is_same_path(b"a.", b"a"));
    assert!(!is_same_path(b"a/b", b"a.b"));
    assert!(!is_same_path(b"a\x2eb", b"a/b"));
}

#[test]
fn keys_hold_rank_bytes_and_end_of_each_component() {
    assert_eq!(key(b""), Vec::<u8>::new());
    assert_eq!(key(b"/"), vec![1, 0]);
    assert_eq!(key(b"."), vec![2, 0x2f, 0]);
    assert_eq!(key(b".."), vec![3, 0x2f, 0x2f, 0]);
    assert_eq!(key(b"a"), vec![4, b'a', 0]);
    assert_eq!(key(b"/a-b/c"), vec![1, 0, 4, b'a', 0x2e, b'b', 0, 4, b'c', 0]);
    assert_eq!(key(b"a//b/./"), vec![4, b'a', 0, 4, b'b', 0]);
    assert_eq!(key(b"\x00"), vec![4, 1, 0]);
}

#[test]
fn keys_order_paths_component_by_component() {
    let ordered: [&[u8]; 9] =
        [b"", b"/", b"/a", b"./a", b"../a", b"-a", b"a", b"a/b", b"a-b"];
    for i in 0..ordered.len() {
        for j in 0..ordered.len() {
            assert_eq!(key(ordered[i]) < key(ordered[j]), i < j);
        }
    }
}

#[test]
fn last_index_finds_the_last_occurrence() {
    assert_eq!(last_index(b"a/b/c", b'/'), Some(3));
    assert_eq!(last_index(b"/", b'/'), Some(0));
    assert_eq!(last_index(b"abc", b'/'), None);
    assert_eq!(last_index(b"", b'/'), None);
}

#[test]
fn same_bytes_compares_whole_strings() {
    assert!(same_bytes(b"", b""));
    assert!(same_bytes(b"abc", b"abc"));
    assert!(!same_bytes(b"abc", b"abd"));
    assert!(!same_bytes(b"abc", b"ab"));
}
