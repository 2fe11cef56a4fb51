use image_to_ascii::CharacterSet;

#[test]
fn entries_are_sorted_ascending_by_brightness() {
    let set = CharacterSet::from_entries(vec![('c', 30), ('a', 10), ('b', 20)]);
    let entries = set.chars();
    assert_eq!(entries, &vec![('a', 10), ('b', 20), ('c', 30)]);
}

#[test]
fn lowest_and_highest_pick_the_ends() {
    let set = CharacterSet::from_entries(vec![('c', 30), ('a', 10), ('b', 20)]);
    assert_eq!(set.lowest_brightness(), Some(('a', 10)));
    assert_eq!(set.highest_brightness(), Some(('c', 30)));
}

#[test]
fn empty_index_has_no_entries() {
    let set = CharacterSet::from_entries(Vec::new());
    assert_eq!(set.lowest_brightness(), None);
    assert_eq!(set.highest_brightness(), None);
    assert_eq!(set.nearest_brightness(12345), None);
}

#[test]
fn nearest_picks_first_entry_at_or_above_the_query() {
    let set = CharacterSet::from_entries(vec![('a', 10), ('b', 20), ('c', 30)]);
    assert_eq!(set.nearest_brightness(0), Some('a'));
    assert_eq!(set.nearest_brightness(10), Some('a'));
    assert_eq!(set.nearest_brightness(11), Some('b'));
    assert_eq!(set.nearest_brightness(20), Some('b'));
    // The insertion point favors the entry at or above the query even when
    // the one below is closer by absolute difference.
    assert_eq!(set.nearest_brightness(21), Some('c'));
}

#[test]
fn nearest_clamps_above_the_maximum() {
    let set = CharacterSet::from_entries(vec![('a', 10), ('b', 20), ('c', 30)]);
    assert_eq!(set.nearest_brightness(31), Some('c'));
    assert_eq!(set.nearest_brightness(u32::MAX), Some('c'));
}

#[test]
fn single_entry_answers_every_query() {
    let set = CharacterSet::from_entries(vec![('x', 5)]);
    assert_eq!(set.nearest_brightness(0), Some('x'));
    assert_eq!(set.nearest_brightness(5), Some('x'));
    assert_eq!(set.nearest_brightness(u32::MAX), Some('x'));
}

#[test]
fn nearest_at_the_extremes_returns_the_extremes() {
    let set = CharacterSet::from_entries(vec![('a', 10), ('b', 20), ('c', 30)]);
    let (lo_char, lo) = set.lowest_brightness().unwrap();
    let (hi_char, hi) = set.highest_brightness().unwrap();
    assert_eq!(set.nearest_brightness(lo), Some(lo_char));
    assert_eq!(set.nearest_brightness(hi), Some(hi_char));
}

#[test]
fn duplicate_characters_keep_their_first_entry() {
    let set = CharacterSet::from_entries(vec![('a', 30), ('a', 10), ('b', 20)]);
    assert_eq!(set.chars(), &vec![('b', 20), ('a', 30)]);
}

#[test]
fn duplicate_characters_collapse_to_one_entry() {
    let set = CharacterSet::from_entries(vec![('a', 10), ('a', 10), ('a', 10)]);
    assert_eq!(set.chars(), &vec![('a', 10)]);
    assert_eq!(set.nearest_brightness(0), Some('a'));
}

#[test]
fn equal_brightness_entries_keep_insertion_order() {
    let set = CharacterSet::from_entries(vec![('a', 5), ('b', 5)]);
    assert_eq!(set.chars(), &vec![('a', 5), ('b', 5)]);
    assert_eq!(set.nearest_brightness(5), Some('a'));
}
