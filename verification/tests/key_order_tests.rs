use wal_kv::key_order::{compare_keys, KeyOrder};

#[test]
fn equal_keys_are_the_same() {
    assert_eq!(compare_keys(b"", b""), KeyOrder::Same);
    assert_eq!(compare_keys(b"API", b"API"), KeyOrder::Same);
}

#[test]
fn a_prefix_comes_first() {
    assert_eq!(compare_keys(b"", b"a"), KeyOrder::Before);
    assert_eq!(compare_keys(b"AP", b"API"), KeyOrder::Before);
    assert_eq!(compare_keys(b"API", b"AP"), KeyOrder::After);
}

#[test]
fn first_differing_byte_decides() {
    assert_eq!(compare_keys(b"API", b"CLI"), KeyOrder::Before);
    assert_eq!(compare_keys(b"SDK", b"CLI"), KeyOrder::After);
    assert_eq!(compare_keys(b"abz", b"ac"), KeyOrder::Before);
    assert_eq!(compare_keys(&[0x80], &[0x7f, 0xff]), KeyOrder::After);
}

#[test]
fn order_agrees_with_slices() {
    let keys: [&[u8]; 6] = [b"", b"a", b"ab", b"b", &[0xff], &[0x00]];
    for a in keys.iter() {
        for b in keys.iter() {
            let expected = if a < b {
                KeyOrder::Before
            } else if a == b {
                KeyOrder::Same
            } else {
                KeyOrder::After
            };
            assert_eq!(compare_keys(a, b), expected);
        }
    }
}
