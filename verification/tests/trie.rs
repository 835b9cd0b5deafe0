use artsy::Trie;

fn check_insertion(trie: &mut Trie<i32>, key: &[u8], value: i32) {
    trie.insert(key, value).unwrap();
    check_existence(trie, key, value);
}

fn check_existence(trie: &mut Trie<i32>, key: &[u8], value: i32) {
    assert_eq!(trie.get(key).unwrap(), Some(&value));
}

#[test]
fn it_works() {
    let mut trie = Trie::for_utf8();
    check_insertion(&mut trie, b"the answer", 42);
}

#[test]
fn it_works_for_empty_strings() {
    let mut trie = Trie::for_utf8();
    check_insertion(&mut trie, b"", 1);
}

#[test]
fn it_is_empty_by_default() {
    let trie = Trie::<()>::for_utf8();
    assert!(trie.is_empty());
}

#[test]
fn it_doesnt_overwrite_entries_with_a_common_prefix() {
    let mut trie = Trie::for_utf8();
    trie.insert(b"a", 1).unwrap();
    trie.insert(b"ab", 2).unwrap();
    assert_eq!(trie.get(b"a").unwrap(), Some(&1));
    assert_eq!(trie.get(b"ab").unwrap(), Some(&2));
}

#[test]
fn it_can_store_more_than_4_parallel_entries() {
    let mut trie = Trie::for_utf8();
    // 1) insert
    check_insertion(&mut trie, b"a", 1);
    check_insertion(&mut trie, b"b", 2);
    check_insertion(&mut trie, b"c", 3);
    check_insertion(&mut trie, b"d", 4);
    check_insertion(&mut trie, b"e", 5);
    // 2) verify
    check_existence(&mut trie, b"a", 1);
    check_existence(&mut trie, b"b", 2);
    check_existence(&mut trie, b"c", 3);
    check_existence(&mut trie, b"d", 4);
    check_existence(&mut trie, b"e", 5);
}

#[test]
fn it_can_store_more_than_16_parallel_entries() {
    let mut trie = Trie::for_utf8();
    // 1) insert
    check_insertion(&mut trie, b"a", 1);
    check_insertion(&mut trie, b"c", 2);
    check_insertion(&mut trie, b"d", 3);
    check_insertion(&mut trie, b"e", 4);
    check_insertion(&mut trie, b"f", 5);
    check_insertion(&mut trie, b"g", 6);
    check_insertion(&mut trie, b"h", 7);
    check_insertion(&mut trie, b"i", 8);
    check_insertion(&mut trie, b"j", 9);
    check_insertion(&mut trie, b"k", 10);
    check_insertion(&mut trie, b"l", 11);
    check_insertion(&mut trie, b"m", 12);
    check_insertion(&mut trie, b"n", 13);
    check_insertion(&mut trie, b"o", 14);
    check_insertion(&mut trie, b"p", 15);
    check_insertion(&mut trie, b"q", 16);
    check_insertion(&mut trie, b"r", 17);
    // 2) verify
    check_existence(&mut trie, b"a", 1);
    check_existence(&mut trie, b"c", 2);
    check_existence(&mut trie, b"d", 3);
    check_existence(&mut trie, b"e", 4);
    check_existence(&mut trie, b"f", 5);
    check_existence(&mut trie, b"g", 6);
    check_existence(&mut trie, b"h", 7);
    check_existence(&mut trie, b"i", 8);
    check_existence(&mut trie, b"j", 9);
    check_existence(&mut trie, b"k", 10);
    check_existence(&mut trie, b"l", 11);
    check_existence(&mut trie, b"m", 12);
    check_existence(&mut trie, b"n", 13);
    check_existence(&mut trie, b"o", 14);
    check_existence(&mut trie, b"p", 15);
    check_existence(&mut trie, b"q", 16);
    check_existence(&mut trie, b"r", 17);
}

#[test]
fn terminator_rejection_leaves_container_unchanged() {
    let mut trie = Trie::with_terminator(0);
    assert!(trie.insert(b"a\x00b", 1).is_err());
    assert!(trie.is_empty());
    assert_eq!(trie.get(b"ab").unwrap(), None);
    trie.insert(b"ok", 7).unwrap();
    assert!(trie.insert(b"\x00", 8).is_err());
    assert_eq!(trie.get(b"ok").unwrap(), Some(&7));
    assert!(trie.get(b"a\x00").is_err());
    assert!(trie.contains(b"a\x00").is_err());
}

#[test]
fn displacement_returns_previous_value() {
    let mut trie = Trie::for_utf8();
    assert_eq!(trie.insert(b"key", 1).unwrap(), None);
    assert_eq!(trie.insert(b"key", 2).unwrap(), Some(1));
    assert_eq!(trie.get(b"key").unwrap(), Some(&2));
}

#[test]
fn fresh_container_finds_nothing() {
    let trie = Trie::<i32>::for_ascii();
    assert_eq!(trie.get(b"anything").unwrap(), None);
    assert_eq!(trie.contains(b"anything").unwrap(), false);
    assert_eq!(trie.get(b"").unwrap(), None);
}

#[test]
fn contains_tracks_inserted_keys() {
    let mut trie = Trie::for_ascii();
    trie.insert(b"hay", 10).unwrap();
    assert!(trie.contains(b"hay").unwrap());
    assert!(!trie.contains(b"needle").unwrap());
    assert!(!trie.contains(b"ha").unwrap());
    assert!(!trie.is_empty());
}

#[test]
fn unchecked_variants_match_checked_ones() {
    let mut trie = Trie::for_utf8();
    assert_eq!(trie.insert_unchecked(b"alpha", 5), None);
    assert_eq!(trie.insert_unchecked(b"alpha", 6), Some(5));
    assert_eq!(trie.get_unchecked(b"alpha"), Some(&6));
    assert!(trie.contains_unchecked(b"alpha"));
    assert!(!trie.contains_unchecked(b"beta"));
}

#[test]
fn representation_transitions_preserve_all_siblings() {
    // 49 sibling keys under the common parent byte b'x' force the parent
    // node through every upgrade: four siblings fill the smallest layout,
    // the 5th, 17th and 49th insert each trigger a transition. After every
    // insert, every previously inserted sibling must still be found.
    let mut trie = Trie::for_ascii();
    let mut inserted: Vec<(Vec<u8>, i32)> = Vec::new();
    for i in 0..49u8 {
        let key = vec![b'x', i + 1];
        let value = i32::from(i) * 3 + 1;
        assert_eq!(trie.insert(&key, value).unwrap(), None);
        inserted.push((key, value));
        for (k, v) in inserted.iter() {
            assert_eq!(trie.get(k).unwrap(), Some(v));
        }
    }
}

#[test]
fn order_independence_of_insertions() {
    let batch: Vec<(&[u8], i32)> = vec![
        (b"a", 1),
        (b"ab", 2),
        (b"abc", 3),
        (b"b", 4),
        (b"", 5),
        (b"ba", 6),
    ];
    let orders: Vec<Vec<usize>> = vec![
        vec![0, 1, 2, 3, 4, 5],
        vec![5, 4, 3, 2, 1, 0],
        vec![2, 0, 4, 5, 1, 3],
    ];
    let mut tries: Vec<Trie<i32>> = Vec::new();
    for order in orders.iter() {
        let mut trie = Trie::for_utf8();
        for &i in order.iter() {
            trie.insert(batch[i].0, batch[i].1).unwrap();
        }
        tries.push(trie);
    }
    let probes: Vec<&[u8]> = vec![b"a", b"ab", b"abc", b"b", b"", b"ba", b"c", b"abcd"];
    for probe in probes.iter() {
        let expected = tries[0].get(probe).unwrap();
        for trie in tries.iter() {
            assert_eq!(trie.get(probe).unwrap(), expected);
        }
    }
}

#[test]
fn deep_keys_and_prefix_chains() {
    let mut trie = Trie::for_utf8();
    let long = b"abcdefghijklmnopqrstuvwxyz";
    for end in 0..=long.len() {
        trie.insert(&long[..end], end as i32).unwrap();
    }
    for end in 0..=long.len() {
        assert_eq!(trie.get(&long[..end]).unwrap(), Some(&(end as i32)));
    }
}

#[test]
fn a_node_can_branch_on_every_byte() {
    // Under the parent byte b'x': one leaf for the key "x" itself (via the
    // terminator branch) plus 255 longer siblings, one for every remaining
    // byte value — the full complement of 256 branches in one node.
    let mut trie = Trie::for_ascii();
    trie.insert(b"x", -1).unwrap();
    for b in 1..=255u8 {
        let key = [b'x', b];
        assert_eq!(trie.insert(&key, i32::from(b)).unwrap(), None);
    }
    assert_eq!(trie.get(b"x").unwrap(), Some(&-1));
    for b in 1..=255u8 {
        let key = [b'x', b];
        assert_eq!(trie.get(&key).unwrap(), Some(&i32::from(b)));
    }
}
