use json_joy::sorted_map::{IteratorType, Reverse, SortedMap};

#[test]
fn sorted_map_numbers_from_0_to_100_matrix() {
    let mut map = SortedMap::<i32, i32>::new();
    for i in 0..=100 {
        map.set_element(i, i, None);
        assert_eq!(map.size(), (i + 1) as usize);
    }
    for i in 0..=100 {
        map.erase_element_by_key(&i);
        assert_eq!(map.size(), (100 - i) as usize);
    }
}

#[test]
fn sorted_map_numbers_both_directions_from_50_matrix() {
    let mut map = SortedMap::<i32, i32>::new();
    for i in 1..=100 {
        map.set_element(50 + i, 50 + i, None);
        map.set_element(50 - i, 50 - i, None);
        assert_eq!(map.size(), ((i - 1) * 2 + 2) as usize);
    }
    for i in 1..=100 {
        map.erase_element_by_key(&(50 - i));
        map.erase_element_by_key(&(50 + i));
    }
    assert_eq!(map.size(), 0);
}

fn next_pseudo(seed: &mut u64) -> i32 {
    *seed = seed.wrapping_mul(6364136223846793005).wrapping_add(1);
    ((*seed >> 33) % 101) as i32
}

#[test]
fn sorted_map_random_numbers_from_0_to_100_matrix() {
    let mut map = SortedMap::<i32, i32>::new();
    let mut seed = 0x5EED_u64;
    for _ in 0..=1000 {
        let num = next_pseudo(&mut seed);
        let found = map.get_element_by_key(&num).is_some();
        if !found {
            map.set_element(num, num, None);
        }
    }
    let size1 = map.size();
    assert!(size1 > 4);
    for _ in 0..=400 {
        let num = next_pseudo(&mut seed);
        map.erase_element_by_key(&num);
    }
    let size2 = map.size();
    assert!(size2 < size1);
}

fn sample() -> SortedMap<i32, &'static str> {
    let mut map = SortedMap::new();
    map.set_element(30, "c", None);
    map.set_element(10, "a", None);
    map.set_element(20, "b", None);
    map
}

#[test]
fn set_then_get_gives_the_last_write() {
    let mut map = sample();
    assert_eq!(map.get_element_by_key(&20), Some(&"b"));
    assert_eq!(map.set_element(20, "B", None), 3);
    assert_eq!(map.get_element_by_key(&20), Some(&"B"));
    assert_eq!(map.get_element_by_key(&10), Some(&"a"));
    assert_eq!(map.get_element_by_key(&25), None);
    assert!(map.erase_element_by_key(&20));
    assert!(!map.erase_element_by_key(&20));
    assert_eq!(map.get_element_by_key(&20), None);
    assert_eq!(map.size(), 2);
}

#[test]
fn front_back_and_bounds() {
    let mut map = sample();
    assert_eq!(map.front(), Some((&10, &"a")));
    assert_eq!(map.back(), Some((&30, &"c")));
    assert_eq!(map.lower_bound(&20).index(), 1);
    assert_eq!(map.lower_bound(&21).index(), 2);
    assert_eq!(map.upper_bound(&20).index(), 2);
    assert!(!map.upper_bound(&30).is_accessible());
    assert_eq!(map.reverse_lower_bound(&20).index(), 1);
    assert_eq!(map.reverse_lower_bound(&25).index(), 1);
    assert_eq!(map.reverse_upper_bound(&20).index(), 0);
    assert!(!map.reverse_upper_bound(&10).is_accessible());
    assert_eq!(map.lower_bound(&20).node, Some(1));
}

#[test]
fn begin_end_and_reverse_iterators() {
    let map = sample();
    assert_eq!(map.begin().position(), Some(0));
    assert!(!map.end().is_accessible());
    let rb = map.r_begin();
    assert_eq!(rb.position(), Some(2));
    assert_eq!(rb.iterator_type, IteratorType::Reverse);
    assert!(!map.r_end().is_accessible());
    let empty: SortedMap<i32, i32> = SortedMap::new();
    assert!(!empty.begin().is_accessible());
    assert!(empty.is_empty());
    assert_eq!(empty.front(), None);
}

#[test]
fn update_key_keeps_order() {
    let mut map = sample();
    let it = map.begin();
    assert!(map.update_key_by_iterator(&it, 5));
    assert_eq!(map.front(), Some((&5, &"a")));
    assert!(!map.update_key_by_iterator(&it, 25));
    let mid = map.lower_bound(&20);
    assert!(map.update_key_by_iterator(&mid, 21));
    assert_eq!(map.get_element_by_key(&21), Some(&"b"));
}

#[test]
fn erase_by_iterator_moves_on() {
    let mut map = sample();
    let it = map.lower_bound(&20);
    let next = map.erase_element_by_iterator(it);
    assert_eq!(map.size(), 2);
    assert_eq!(next.position(), Some(1));
    let last = map.lower_bound(&30);
    let after = map.erase_element_by_iterator(last);
    assert!(!after.is_accessible());
    assert_eq!(map.back(), Some((&10, &"a")));
}

#[test]
fn height_and_description() {
    let mut map: SortedMap<u64, u64> = SortedMap::new();
    assert_eq!(map.get_height(), 0);
    for i in 0..7u64 {
        map.set_element(i, i, None);
    }
    assert_eq!(map.get_height(), 3);
    assert_eq!(map.to_string(""), "SortedMap(len=7)");
    map.clear();
    assert_eq!(map.size(), 0);
    assert_eq!(map.to_string(""), "SortedMap(len=0)");
}

#[test]
fn sorted_map_with_reverse_comparator() {
    let mut map = SortedMap::<i32, &str, Reverse>::with_comparator(Reverse, false);
    map.set_element(10, "a", None);
    map.set_element(30, "c", None);
    map.set_element(20, "b", None);
    assert_eq!(map.front(), Some((&30, &"c")));
    assert_eq!(map.back(), Some((&10, &"a")));
    assert_eq!(map.get_element_by_key(&20), Some(&"b"));
    assert!(map.erase_element_by_key(&30));
    assert_eq!(map.front(), Some((&20, &"b")));
}
