use oxide::order::compare;
use oxide::order::Rank;
use oxide::sorted_set::SortedSet;

fn set_of(items: &[&[u8]]) -> SortedSet {
    let mut set = SortedSet::new();
    for item in items {
        set.insert(item);
    }
    set
}

fn listing(items: &[&[u8]]) -> Vec<Vec<u8>> {
    items.iter().map(|b| b.to_vec()).collect()
}

#[test]
fn compare_orders_by_the_first_byte_that_differs() {
    assert_eq!(compare(b"abc", b"abd"), Rank::Before);
    assert_eq!(compare(b"abd", b"abc"), Rank::After);
    assert_eq!(compare(b"b", b"abc"), Rank::After);
    assert_eq!(compare(b"\x7f", b"\x80"), Rank::Before);
    assert_eq!(compare(b"\xff", b"\x00"), Rank::After);
}

#[test]
fn compare_puts_a_prefix_first() {
    assert_eq!(compare(b"", b"a"), Rank::Before);
    assert_eq!(compare(b"ab", b"abc"), Rank::Before);
    assert_eq!(compare(b"abc", b"ab"), Rank::After);
}

#[test]
fn compare_finds_equal_strings_the_same() {
    assert_eq!(compare(b"", b""), Rank::Same);
    assert_eq!(compare(b"abc", b"abc"), Rank::Same);
}

#[test]
fn compare_agrees_with_the_order_of_slices() {
    let samples: [&[u8]; 8] = [b"", b"a", b"ab", b"b", b"a\x00", b"\xff", b"aa", b"ba"];
    for a in samples {
        for b in samples {
            let expected = if a < b {
                Rank::Before
            } else if a == b {
                Rank::Same
            } else {
                Rank::After
            };
            assert_eq!(compare(a, b), expected);
        }
    }
}

#[test]
fn new_set_is_empty() {
    let set = SortedSet::new();
    assert_eq!(set.len(), 0);
    assert!(set.is_empty());
    assert_eq!(set.get(0), None);
    assert!(!set.contains(b"a"));
    assert_eq!(set.into_vec(), Vec::<Vec<u8>>::new());
}

#[test]
fn insert_keeps_the_listing_ascending() {
    let set = set_of(&[b"m", b"a", b"z", b"b", b"", b"ab"]);
    assert_eq!(set.len(), 6);
    assert!(!set.is_empty());
    assert_eq!(set.into_vec(), listing(&[b"", b"a", b"ab", b"b", b"m", b"z"]));
}

#[test]
fn insert_tells_whether_the_set_grew() {
    let mut set = SortedSet::new();
    assert!(set.insert(b"a"));
    assert!(set.insert(b"b"));
    assert!(!set.insert(b"a"));
    assert_eq!(set.len(), 2);
}

#[test]
fn put_tells_the_place() {
    let mut set = set_of(&[b"b", b"d"]);
    let first = set.put(b"a");
    assert_eq!((first.index, first.found), (0, false));
    let middle = set.put(b"c");
    assert_eq!((middle.index, middle.found), (2, false));
    let again = set.put(b"d");
    assert_eq!((again.index, again.found), (3, true));
    let last = set.put(b"e");
    assert_eq!((last.index, last.found), (4, false));
    assert_eq!(set.into_vec(), listing(&[b"a", b"b", b"c", b"d", b"e"]));
}

#[test]
fn search_counts_the_elements_before() {
    let set = set_of(&[b"b", b"d", b"f"]);
    let hit = set.search(b"d");
    assert_eq!((hit.index, hit.found), (1, true));
    let miss = set.search(b"e");
    assert_eq!((miss.index, miss.found), (2, false));
    let before_all = set.search(b"a");
    assert_eq!((before_all.index, before_all.found), (0, false));
    let after_all = set.search(b"g");
    assert_eq!((after_all.index, after_all.found), (3, false));
}

#[test]
fn contains_and_get() {
    let set = set_of(&[b"x", b"y"]);
    assert!(set.contains(b"x"));
    assert!(set.contains(b"y"));
    assert!(!set.contains(b"z"));
    assert_eq!(set.get(0), Some(&b"x".to_vec()));
    assert_eq!(set.get(1), Some(&b"y".to_vec()));
    assert_eq!(set.get(2), None);
}

#[test]
fn merge_is_the_union() {
    let a = set_of(&[b"a", b"c", b"e"]);
    let b = set_of(&[b"b", b"c", b"d", b"f"]);
    assert_eq!(a.merge(&b).into_vec(), listing(&[b"a", b"b", b"c", b"d", b"e", b"f"]));
    assert_eq!(b.merge(&a).into_vec(), listing(&[b"a", b"b", b"c", b"d", b"e", b"f"]));
}

#[test]
fn merge_with_the_empty_set_changes_nothing() {
    let a = set_of(&[b"a", b"b"]);
    let empty = SortedSet::new();
    assert_eq!(a.merge(&empty).into_vec(), listing(&[b"a", b"b"]));
    assert_eq!(empty.merge(&a).into_vec(), listing(&[b"a", b"b"]));
    assert_eq!(empty.merge(&empty).into_vec(), Vec::<Vec<u8>>::new());
}

#[test]
fn merge_does_not_depend_on_grouping() {
    let a = set_of(&[b"a", b"d"]);
    let b = set_of(&[b"b", b"d"]);
    let c = set_of(&[b"c", b"a"]);
    let left = a.merge(&b).merge(&c).into_vec();
    let right = a.merge(&b.merge(&c)).into_vec();
    assert_eq!(left, right);
    assert_eq!(left, listing(&[b"a", b"b", b"c", b"d"]));
}
