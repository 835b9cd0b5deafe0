use artsy::Trie;
use artsy::keygen::BytesGenerator;
use artsy::keygen::insertion_data;

#[test]
fn generator_walks_the_alphabet_and_grows() {
    let mut generator = BytesGenerator::new(b"ab");
    assert_eq!(generator.next_bytes(), b"a");
    assert_eq!(generator.next_bytes(), b"b");
    assert_eq!(generator.next_bytes(), b"ba");
    assert_eq!(generator.next_bytes(), b"bb");
    assert_eq!(generator.next_bytes(), b"bba");
}

#[test]
fn insertion_data_pairs_keys_with_positions() {
    let data = insertion_data(b"abc", 7);
    let expected: Vec<(&[u8], usize)> = vec![
        (b"a", 0),
        (b"b", 1),
        (b"c", 2),
        (b"ca", 3),
        (b"cb", 4),
        (b"cc", 5),
        (b"cca", 6),
    ];
    assert_eq!(data.len(), expected.len());
    for (got, want) in data.iter().zip(expected.iter()) {
        assert_eq!(got.0.as_slice(), want.0);
        assert_eq!(got.1, want.1);
    }
}

#[test]
fn generated_workload_round_trips_through_the_container() {
    let data = insertion_data(b"abcdefghij", 100);
    let mut trie = Trie::for_ascii();
    for (key, value) in data.iter() {
        trie.insert(key, *value).unwrap();
    }
    for (key, value) in data.iter() {
        assert_eq!(trie.get(key).unwrap(), Some(value));
    }
}
