use libstk1::cache::{MatchingBytesKey, MatchingKey, OffsetCache, OffsetList, SimpleList};

fn values(list: &OffsetList) -> Vec<u32> {
    let mut out = Vec::new();
    let mut node = Some(list.root());
    while let Some(current) = node {
        out.push(current.value());
        node = current.next();
    }
    out
}

fn distances(cache: &OffsetCache) -> Option<Vec<usize>> {
    let mut walk = cache.matches()?;
    let mut out = Vec::new();
    while let Some(distance) = walk.next() {
        out.push(distance);
    }
    Some(out)
}

#[test]
fn simple_list_links() {
    let leaf = SimpleList::new_leaf(1u32);
    assert_eq!(leaf.value(), 1);
    assert_eq!(*leaf.as_ref().as_ref(), 1);
    assert!(leaf.next().is_none());

    let mut list = SimpleList::new(2u32, leaf);
    assert_eq!(list.value(), 2);
    assert_eq!(list.next().unwrap().value(), 1);

    list.next_mut().unwrap().link(SimpleList::new_leaf(0));
    assert_eq!(list.next().unwrap().next().unwrap().value(), 0);

    list.link(SimpleList::new_leaf(7));
    assert_eq!(list.next().unwrap().value(), 7);
    assert!(list.next().unwrap().next().is_none());

    list.unlink();
    assert_eq!(list.value(), 2);
    assert!(list.next().is_none());
    assert!(list.next_mut().is_none());
}

#[test]
fn offset_list_is_most_recent_first() {
    let mut list = OffsetList::new(3);
    assert_eq!(list.nearest(), 3);
    list.push(8);
    list.push(20);
    assert_eq!(list.nearest(), 20);
    assert_eq!(values(&list), vec![20, 8, 3]);
}

#[test]
fn offset_list_retain_cuts_the_tail() {
    let mut list = OffsetList::new(3);
    for value in [8, 20, 21, 40] {
        list.push(value);
    }
    assert!(list.retain(3));
    assert_eq!(values(&list), vec![40, 21, 20, 8, 3]);
    assert!(list.retain(9));
    assert_eq!(values(&list), vec![40, 21, 20]);
    assert!(list.retain(40));
    assert_eq!(values(&list), vec![40]);
    assert!(!list.retain(41));
    assert_eq!(values(&list), vec![40]);
}

#[test]
fn offset_list_retain_stops_at_the_first_stale_position() {
    let mut list = OffsetList::new(50);
    list.push(1);
    list.push(60);
    assert!(list.retain(10));
    assert_eq!(values(&list), vec![60]);
}

#[test]
fn distance_walk_ends_at_the_first_stale_position() {
    let mut list = OffsetList::new(3);
    for value in [8, 20, 21, 40] {
        list.push(value);
    }
    let mut walk = list.distance_iter(41, 9);
    assert_eq!(walk.next(), Some(1));
    assert_eq!(walk.next(), Some(20));
    assert_eq!(walk.next(), Some(21));
    assert_eq!(walk.next(), None);
    assert_eq!(walk.next(), None);
    assert_eq!(walk.next(), None);
}

#[test]
fn long_list_is_taken_apart_without_recursion() {
    let mut list = OffsetList::new(0);
    for value in 1..400_000u32 {
        list.push(value);
    }
    assert!(list.retain(399_990));
    assert_eq!(values(&list).len(), 10);
    for value in 400_000..800_000u32 {
        list.push(value);
    }
    assert_eq!(list.nearest(), 799_999);
}

#[test]
fn bytes_key_rolls() {
    let mut key = MatchingBytesKey::new(1, 2, 3);
    assert_eq!(key.key_value(), 0x010203);
    key.advance(4);
    assert_eq!(key.key_value(), 0x020304);
    key.advance(0xFF);
    assert_eq!(key.key_value(), 0x0304FF);
    assert_eq!(MatchingBytesKey::null().key_value(), 0);
    assert_eq!(MatchingBytesKey::new(0xFF, 0xFE, 0xFD).key_value(), 0xFFFEFD);
}

#[test]
fn cache_finds_earlier_keys_nearest_first() {
    let input = b"abcabcabcabc";
    let mut cache = OffsetCache::new(input, 0x4000);
    assert!(distances(&cache).is_none());
    cache.advance(3);
    assert_eq!(distances(&cache), Some(vec![3]));
    cache.advance(3);
    assert_eq!(distances(&cache), Some(vec![3, 6]));
    cache.advance(1);
    assert_eq!(distances(&cache), Some(vec![3, 6]));
    cache.advance(2);
    assert_eq!(distances(&cache), Some(vec![3, 6, 9]));
    cache.advance(1);
    assert!(distances(&cache).is_none());
    cache.advance(100);
    assert!(distances(&cache).is_none());
}

#[test]
fn cache_of_a_short_buffer_has_no_keys() {
    let input = b"aaa";
    let mut cache = OffsetCache::new(input, 8);
    cache.advance(1);
    assert!(distances(&cache).is_none());
    cache.advance(5);
    assert!(distances(&cache).is_none());
}

#[test]
fn cache_keeps_to_the_window() {
    let input = b"xyzxyzxyzxyz";
    let mut cache = OffsetCache::new(input, 3);
    cache.advance(6);
    assert_eq!(distances(&cache), Some(vec![3]));
    let mut cache = OffsetCache::new(input, 2);
    cache.advance(6);
    assert_eq!(distances(&cache), Some(vec![]));
    let mut cache = OffsetCache::new(input, 7);
    cache.advance(9);
    assert_eq!(distances(&cache), Some(vec![3, 6]));
}

#[test]
fn cache_sweeps_and_still_finds_what_is_in_the_window() {
    let mut input = Vec::new();
    for round in 0..4u8 {
        for value in 0..50u8 {
            input.push(value);
            input.push(round);
        }
        input.extend_from_slice(b"needle");
    }
    let mut cache = OffsetCache::new(&input, 120);
    cache.advance(100 + 106);
    assert_eq!(distances(&cache), Some(vec![106]));
    cache.advance(106);
    assert_eq!(distances(&cache), Some(vec![106]));
    cache.advance(106);
    assert_eq!(distances(&cache), Some(vec![106]));

    let mut cache = OffsetCache::new(&input, 105);
    cache.advance(100 + 106 + 106);
    assert_eq!(distances(&cache), Some(vec![]));
}

#[test]
fn cache_steps_one_by_one_as_in_one_go() {
    let input = b"abababababababab";
    let mut stepped = OffsetCache::new(input, 16);
    for _ in 0..8 {
        stepped.advance(1);
    }
    let mut jumped = OffsetCache::new(input, 16);
    jumped.advance(8);
    assert_eq!(distances(&stepped), Some(vec![2, 4, 6, 8]));
    assert_eq!(distances(&jumped), Some(vec![2, 4, 6, 8]));
}
