use oxide::classifier::classify;
use oxide::classifier::continues_candidate;
use oxide::classifier::opens_quote;
use oxide::classifier::starts_candidate;
use oxide::classifier::Effect;
use oxide::Extractor;
use oxide::ExtractorOptions;

fn extract_with(blob: &[u8], extra: &[u8]) -> Vec<Vec<u8>> {
    let options = ExtractorOptions { extra_continue: extra.to_vec() };
    Extractor::unique(blob, &options).into_vec()
}

fn extract(blob: &[u8]) -> Vec<Vec<u8>> {
    Extractor::unique(blob, &ExtractorOptions::default()).into_vec()
}

fn texts(items: &[&str]) -> Vec<Vec<u8>> {
    items.iter().map(|s| s.as_bytes().to_vec()).collect()
}

#[test]
fn bracketed_value_is_one_candidate() {
    let blob = b"bg-[url('a b]c.png')]";
    assert_eq!(extract(blob), texts(&["bg-[url('a b]c.png')]"]));
}

#[test]
fn attribute_value_gives_its_classes() {
    assert_eq!(extract(b"flex items-center"), texts(&["flex", "items-center"]));
}

#[test]
fn markup_bytes_close_and_never_start() {
    let found = extract(b"<div class=\"flex items-center\">");
    assert!(found.contains(&b"flex".to_vec()));
    assert!(found.contains(&b"items-center".to_vec()));
    for candidate in &found {
        assert!(!candidate.contains(&b'<'));
        assert!(!candidate.contains(&b'"'));
        assert!(!candidate.contains(&b'>'));
        assert!(!candidate.contains(&b'='));
        assert!(!candidate.contains(&b' '));
    }
    assert_eq!(found, texts(&["class", "div", "flex", "items-center"]));
}

#[test]
fn a_candidate_that_comes_again_is_listed_once() {
    assert_eq!(extract(b"flex p-4 flex\nflex\tp-4"), texts(&["flex", "p-4"]));
}

#[test]
fn candidates_come_out_in_ascending_byte_order() {
    assert_eq!(extract(b"b a C 1 -x _y"), texts(&["-x", "1", "C", "_y", "a", "b"]));
}

#[test]
fn empty_blob_has_no_candidate() {
    assert_eq!(extract(b""), Vec::<Vec<u8>>::new());
}

#[test]
fn closing_bytes_alone_give_no_candidate() {
    assert_eq!(extract(b" \t\n<>\"'`]()=,;"), Vec::<Vec<u8>>::new());
}

#[test]
fn every_start_byte_begins_a_candidate() {
    for b in b"azAZ09-_.:/!@%#" {
        assert!(starts_candidate(*b));
        assert_eq!(extract(&[*b]), vec![vec![*b]]);
    }
    for b in b" [](){}<>\"'`=,;*+&|~^$?\\\x00\x7f\x80\xff" {
        assert!(!starts_candidate(*b));
        assert_eq!(extract(&[*b]), Vec::<Vec<u8>>::new());
    }
}

#[test]
fn an_opening_bracket_carries_on_but_does_not_begin() {
    assert!(continues_candidate(b'[', &[]));
    assert!(!starts_candidate(b'['));
    assert_eq!(extract(b"[color:red]"), texts(&["color:red"]));
    assert_eq!(extract(b"w-[10px]"), texts(&["w-[10px]"]));
}

#[test]
fn variants_and_modifiers_stay_in_one_candidate() {
    assert_eq!(
        extract(b"md:hover:bg-red-500/50 !mt-1.5 @container w-1/2"),
        texts(&["!mt-1.5", "@container", "md:hover:bg-red-500/50", "w-1/2"])
    );
}

#[test]
fn whitespace_inside_brackets_belongs_to_the_candidate() {
    assert_eq!(extract(b"grid-cols-[1fr 2fr] gap-2"), texts(&["gap-2", "grid-cols-[1fr 2fr]"]));
}

#[test]
fn nested_brackets_close_at_their_own_depth() {
    assert_eq!(extract(b"a-[b[c]d] e"), texts(&["a-[b[c]d]", "e"]));
}

#[test]
fn unmatched_closing_bracket_closes_the_candidate() {
    assert_eq!(extract(b"a]b"), texts(&["a", "b"]));
    assert_eq!(extract(b"a-[b]]c"), texts(&["a-[b]", "c"]));
}

#[test]
fn quote_outside_brackets_closes_the_candidate() {
    assert_eq!(extract(b"a'b"), texts(&["a", "b"]));
    assert_eq!(extract(b"a\"b`c"), texts(&["a", "b", "c"]));
}

#[test]
fn each_quote_byte_shields_brackets_until_it_comes_again() {
    assert_eq!(extract(b"a-[\"x]y\"] z"), texts(&["a-[\"x]y\"]", "z"]));
    assert_eq!(extract(b"a-[`x]y`] z"), texts(&["a-[`x]y`]", "z"]));
    assert_eq!(extract(b"a-['x\"]y'] z"), texts(&["a-['x\"]y']", "z"]));
    assert_eq!(extract(b"a-['x[y'] z"), texts(&["a-['x[y']", "z"]));
}

#[test]
fn unterminated_bracket_ends_with_the_blob() {
    assert_eq!(extract(b"ok a-[b c"), texts(&["a-[b c", "ok"]));
}

#[test]
fn unterminated_quote_ends_with_the_blob() {
    assert_eq!(extract(b"a-['b] c] d"), texts(&["a-['b] c] d"]));
}

#[test]
fn candidate_open_at_the_end_is_emitted() {
    assert_eq!(extract(b"flex"), texts(&["flex"]));
    assert_eq!(extract(b" flex"), texts(&["flex"]));
}

#[test]
fn bytes_that_are_no_text_outside_brackets_close_the_candidate() {
    assert_eq!(extract(b"a\xffb\x80c"), texts(&["a", "b", "c"]));
}

#[test]
fn span_that_is_no_text_is_not_a_candidate() {
    assert_eq!(extract(b"ok a-[\xff] fine"), texts(&["fine", "ok"]));
    assert_eq!(extract(b"a-[\xe2\x86"), Vec::<Vec<u8>>::new());
}

#[test]
fn text_beyond_ascii_inside_brackets_is_kept() {
    let blob = "content-['\u{2192}'] x".as_bytes();
    assert_eq!(extract(blob), texts(&["content-['\u{2192}']", "x"]));
}

#[test]
fn extra_bytes_carry_a_candidate_on() {
    assert_eq!(extract(b"a=b c"), texts(&["a", "b", "c"]));
    assert_eq!(extract_with(b"a=b c", b"="), texts(&["a=b", "c"]));
    assert_eq!(extract_with(b"=a", b"="), texts(&["a"]));
    assert_eq!(extract_with(b"a b", b" "), texts(&["a b"]));
}

#[test]
fn default_options_add_no_byte() {
    assert_eq!(ExtractorOptions::default().extra_continue, Vec::<u8>::new());
}

#[test]
fn classifier_outside_brackets() {
    assert_eq!(classify(b'a', 0, None, &[]), Effect::Continue);
    assert_eq!(classify(b'[', 0, None, &[]), Effect::OpenBracket);
    assert_eq!(classify(b']', 0, None, &[]), Effect::Close);
    assert_eq!(classify(b' ', 0, None, &[]), Effect::Close);
    assert_eq!(classify(b'\'', 0, None, &[]), Effect::Close);
    assert_eq!(classify(b'=', 0, None, b"="), Effect::Continue);
}

#[test]
fn classifier_inside_brackets() {
    assert_eq!(classify(b' ', 1, None, &[]), Effect::Continue);
    assert_eq!(classify(b'[', 1, None, &[]), Effect::OpenBracket);
    assert_eq!(classify(b']', 1, None, &[]), Effect::CloseBracket);
    assert_eq!(classify(b'\'', 2, None, &[]), Effect::OpenQuote);
    assert_eq!(classify(b'"', 2, None, &[]), Effect::OpenQuote);
    assert_eq!(classify(b'`', 2, None, &[]), Effect::OpenQuote);
}

#[test]
fn classifier_inside_quotes() {
    assert_eq!(classify(b']', 1, Some(b'\''), &[]), Effect::Continue);
    assert_eq!(classify(b'[', 1, Some(b'\''), &[]), Effect::Continue);
    assert_eq!(classify(b'"', 1, Some(b'\''), &[]), Effect::Continue);
    assert_eq!(classify(b'\'', 1, Some(b'\''), &[]), Effect::CloseQuote);
}

#[test]
fn quote_bytes() {
    assert!(opens_quote(b'\''));
    assert!(opens_quote(b'"'));
    assert!(opens_quote(b'`'));
    assert!(!opens_quote(b'a'));
}
