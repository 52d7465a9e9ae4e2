use oxide::parse_all_blobs;
use oxide::parse_candidate_strings;
use oxide::parse_candidate_strings_from_files;
use oxide::pipeline::parse_all_blobs_with;
use oxide::read_all_files;
use oxide::ChangedContent;
use oxide::Parsing;
use oxide::IO;

fn literal(text: &str) -> ChangedContent {
    ChangedContent { file: None, content: Some(text.to_string()), extension: "html".to_string() }
}

fn file(path: &str) -> ChangedContent {
    ChangedContent { file: Some(path.to_string()), content: None, extension: "html".to_string() }
}

fn blobs(items: &[&[u8]]) -> Vec<Vec<u8>> {
    items.iter().map(|b| b.to_vec()).collect()
}

#[test]
fn output_is_sorted_and_free_of_duplicates() {
    let out = parse_all_blobs(blobs(&[b"flex p-4 underline", b"p-4 block flex", b"", b"block"]));
    assert_eq!(out, vec!["block", "flex", "p-4", "underline"]);
}

#[test]
fn order_is_by_byte_value() {
    let out = parse_all_blobs(blobs(&[b"a B _c 0 -d"]));
    assert_eq!(out, vec!["-d", "0", "B", "_c", "a"]);
    let mut sorted = out.clone();
    sorted.sort();
    sorted.dedup();
    assert_eq!(out, sorted);
}

#[test]
fn a_prefix_comes_before_its_extensions() {
    let out = parse_all_blobs(blobs(&[b"p-10 p-1 p p-"]));
    assert_eq!(out, vec!["p", "p-", "p-1", "p-10"]);
}

#[test]
fn running_twice_gives_the_same_output() {
    let input = blobs(&[b"<div class=\"flex items-center\">", b"bg-[url('a b]c.png')] flex"]);
    let first = parse_all_blobs(input.clone());
    let second = parse_all_blobs(input);
    assert_eq!(first, second);
    assert_eq!(first, vec!["bg-[url('a b]c.png')]", "class", "div", "flex", "items-center"]);
}

#[test]
fn order_of_the_blobs_does_not_matter() {
    let one = parse_all_blobs(blobs(&[b"b c", b"a b", b"d"]));
    let other = parse_all_blobs(blobs(&[b"d", b"a b", b"b c"]));
    assert_eq!(one, other);
    assert_eq!(one, vec!["a", "b", "c", "d"]);
}

#[test]
fn scanning_in_sequence_and_in_parallel_agree() {
    let mut input: Vec<Vec<u8>> = Vec::new();
    for i in 0..200 {
        input.push(format!("w-{} mx-{} flex h-[{}px]", i, i % 7, i).into_bytes());
    }
    let sequential = parse_all_blobs_with(input.clone(), Parsing::Sequential);
    let parallel = parse_all_blobs_with(input.clone(), Parsing::Parallel);
    assert_eq!(sequential, parallel);
    assert_eq!(parallel.len(), 200 + 7 + 1 + 200);
    assert_eq!(parse_all_blobs(input), parallel);
}

#[test]
fn no_blobs_no_candidates() {
    assert_eq!(parse_all_blobs(Vec::new()), Vec::<String>::new());
}

#[test]
fn a_blob_cut_after_a_closing_byte_keeps_its_candidates() {
    let whole = parse_all_blobs(blobs(&[b"flex items-center w-[1px 2px] end"]));
    let cut = parse_all_blobs(blobs(&[b"flex ", b"items-center w-[1px 2px] end"]));
    assert_eq!(whole, cut);
    let cut_later = parse_all_blobs(blobs(&[b"flex items-center w-[1px 2px] ", b"end"]));
    assert_eq!(whole, cut_later);
}

#[test]
fn a_blob_cut_before_a_closing_byte_keeps_its_candidates() {
    let whole = parse_all_blobs(blobs(&[b"flex items-center"]));
    let cut = parse_all_blobs(blobs(&[b"flex", b" items-center"]));
    assert_eq!(whole, cut);
}

#[test]
fn a_blob_cut_inside_brackets_does_not_keep_its_candidates() {
    let whole = parse_all_blobs(blobs(&[b"w-[1px 2px]"]));
    let cut = parse_all_blobs(blobs(&[b"w-[1px ", b"2px]"]));
    assert_eq!(whole, vec!["w-[1px 2px]"]);
    assert_eq!(cut, vec!["2px", "w-[1px "]);
}

#[test]
fn literal_source_is_its_text() {
    let out = parse_candidate_strings_from_files(vec![literal("flex p-4")], vec![None]);
    assert_eq!(out, vec!["flex", "p-4"]);
}

#[test]
fn file_source_is_what_was_read() {
    let out = parse_candidate_strings_from_files(
        vec![file("a.html")],
        vec![Some(b"underline".to_vec())],
    );
    assert_eq!(out, vec!["underline"]);
}

#[test]
fn a_file_that_could_not_be_read_leaves_the_others() {
    let out = parse_candidate_strings_from_files(
        vec![file("missing.html"), file("there.html")],
        vec![None, Some(b"<p class=\"mt-2 font-bold\">".to_vec())],
    );
    assert_eq!(out, vec!["class", "font-bold", "mt-2", "p"]);
}

#[test]
fn sources_without_an_entry_in_loaded_are_empty() {
    let out = parse_candidate_strings_from_files(vec![file("a.html"), literal("x")], Vec::new());
    assert_eq!(out, vec!["x"]);
}

#[test]
fn no_sources_no_candidates() {
    let out = parse_candidate_strings_from_files(Vec::new(), Vec::new());
    assert_eq!(out, Vec::<String>::new());
}

#[test]
fn source_with_both_or_neither_is_empty() {
    let both = ChangedContent {
        file: Some("a.html".to_string()),
        content: Some("flex".to_string()),
        extension: "html".to_string(),
    };
    let neither = ChangedContent { file: None, content: None, extension: String::new() };
    assert_eq!(both.file_to_read(), None);
    assert_eq!(neither.file_to_read(), None);
    assert_eq!(both.to_blob(Some(b"block".to_vec())), Vec::<u8>::new());
    assert_eq!(neither.to_blob(Some(b"block".to_vec())), Vec::<u8>::new());
    let blobs = read_all_files(vec![both, neither], vec![Some(b"block".to_vec()), None]);
    assert_eq!(blobs, vec![Vec::<u8>::new(), Vec::<u8>::new()]);
}

#[test]
fn only_a_file_source_asks_for_a_read() {
    assert_eq!(file("a.html").file_to_read(), Some(&"a.html".to_string()));
    assert_eq!(literal("flex").file_to_read(), None);
}

#[test]
fn blobs_keep_the_order_of_the_sources() {
    let blobs = read_all_files(
        vec![literal("one"), file("f"), file("g"), literal("two")],
        vec![Some(b"unused".to_vec()), Some(b"read".to_vec()), None, None],
    );
    assert_eq!(blobs, vec![b"one".to_vec(), b"read".to_vec(), Vec::new(), b"two".to_vec()]);
}

#[test]
fn a_literal_keeps_text_beyond_ascii() {
    let out = parse_candidate_strings_from_files(vec![literal("content-['\u{e9}'] a")], vec![None]);
    assert_eq!(out, vec!["a", "content-['\u{e9}']"]);
}

#[test]
fn bytes_that_are_no_text_give_no_candidate() {
    let out = parse_all_blobs(blobs(&[b"ok w-[\xc3] fine"]));
    assert_eq!(out, vec!["fine", "ok"]);
}

#[test]
fn the_strategy_does_not_change_the_result() {
    let sources = vec![literal("flex p-4"), file("a.html")];
    let loaded = vec![None, Some(b"p-4 block".to_vec())];
    let expected = vec!["block", "flex", "p-4"];
    for strategy in [0b0101u8, 0b0110, 0b1001, 0b1010, 0, 0b1111] {
        let out = parse_candidate_strings(sources.clone(), loaded.clone(), strategy);
        assert_eq!(out, expected);
    }
}

#[test]
fn strategy_bits() {
    assert_eq!(IO::Sequential.bits(), 0b0001);
    assert_eq!(IO::Parallel.bits(), 0b0010);
    assert_eq!(Parsing::Sequential.bits(), 0b0100);
    assert_eq!(Parsing::Parallel.bits(), 0b1000);
}

#[test]
fn strategy_byte_is_read_in_two_parts() {
    assert_eq!(IO::from_bits(0b0101), Some(IO::Sequential));
    assert_eq!(IO::from_bits(0b1010), Some(IO::Parallel));
    assert_eq!(IO::from_bits(0b0100), None);
    assert_eq!(IO::from_bits(0b0011), None);
    assert_eq!(Parsing::from_bits(0b0101), Some(Parsing::Sequential));
    assert_eq!(Parsing::from_bits(0b1010), Some(Parsing::Parallel));
    assert_eq!(Parsing::from_bits(0b0001), None);
    assert_eq!(Parsing::from_bits(0b1100), None);
    assert_eq!(
        Parsing::from_bits(IO::Parallel.bits() | Parsing::Sequential.bits()),
        Some(Parsing::Sequential)
    );
}
