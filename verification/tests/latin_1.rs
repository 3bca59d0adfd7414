use boyer_moore_magiclen::latin_1::{find, find_full, fits_latin_1, narrow, rfind, rfind_full};
use boyer_moore_magiclen::{
    BMLatin1, BMLatin1BadCharShiftMap, BMLatin1BadCharShiftMapRev, BMLatin1Searchable,
};

fn naive(pattern: &[u8], text: &[u8]) -> Vec<usize> {
    let mut found = Vec::new();
    if pattern.is_empty() || pattern.len() > text.len() {
        return found;
    }
    for o in 0..=text.len() - pattern.len() {
        if &text[o..o + pattern.len()] == pattern {
            found.push(o);
        }
    }
    found
}

fn keep_disjoint(occurrences: &[usize], pattern_len: usize) -> Vec<usize> {
    let mut kept: Vec<usize> = Vec::new();
    for &o in occurrences {
        if kept.last().map_or(true, |&k| o >= k + pattern_len) {
            kept.push(o);
        }
    }
    kept
}

fn keep_disjoint_backward(occurrences: &[usize], pattern_len: usize) -> Vec<usize> {
    let mut kept: Vec<usize> = Vec::new();
    for &o in occurrences.iter().rev() {
        if kept.last().map_or(true, |&k| o + pattern_len <= k) {
            kept.push(o);
        }
    }
    kept
}

#[test]
fn latin_1_scenario_oocoo() {
    let bml = BMLatin1::from("oocoo").unwrap();
    let text = "coocoocoocoo";

    assert_eq!(vec![1, 4, 7], bml.find_full_all_in(text));
    assert_eq!(vec![1, 4], bml.find_full_in(text, 2));
    assert_eq!(Some(1), bml.find_full_first_in(text));
    assert_eq!(vec![1, 7], bml.find_all_in(text));
    assert_eq!(vec![7, 4, 1], bml.rfind_full_all_in(text));
    assert_eq!(vec![7, 4], bml.rfind_full_in(text, 2));
    assert_eq!(Some(7), bml.rfind_full_first_in(text));
    assert_eq!(vec![7, 1], bml.rfind_all_in(text));
    assert_eq!(Some(1), bml.find_first_in(text));
    assert_eq!(Some(7), bml.rfind_first_in(text));
    assert_eq!(vec![1], bml.find_in(text, 1));
    assert_eq!(vec![7], bml.rfind_in(text, 1));
}

#[test]
fn latin_1_every_kind_of_text() {
    let bml = BMLatin1::from(String::from("oocoo")).unwrap();
    let owned = String::from("coocoocoocoo");
    let bytes: Vec<u8> = owned.as_bytes().to_vec();

    assert_eq!(vec![1, 4, 7], bml.find_full_all_in(&owned));
    assert_eq!(vec![1, 4, 7], bml.find_full_all_in(owned.as_str()));
    assert_eq!(vec![1, 4, 7], bml.find_full_all_in(&bytes));
    assert_eq!(vec![1, 4, 7], bml.find_full_all_in(bytes));
    assert_eq!(vec![1, 4, 7], bml.find_full_all_in(owned));

    let bml = BMLatin1::from(vec![b'o', b'o', b'c', b'o', b'o']).unwrap();
    assert_eq!(vec![7, 1], bml.rfind_all_in("coocoocoocoo"));
}

#[test]
fn latin_1_free_functions_take_the_table_of_the_pattern() {
    let pattern = "oocoo";
    let text = "coocoocoocoo";
    let map = BMLatin1BadCharShiftMap::create_bad_char_shift_map(pattern).unwrap();
    let map_rev = BMLatin1BadCharShiftMapRev::create_bad_char_shift_map(pattern).unwrap();

    assert_eq!(vec![1, 4, 7], find_full(text, pattern, &map, 0));
    assert_eq!(vec![1, 4], find_full(text, pattern, &map, 2));
    assert_eq!(vec![7, 4, 1], rfind_full(text, pattern, &map_rev, 0));
    assert_eq!(vec![7], rfind_full(text, pattern, &map_rev, 1));
    assert_eq!(vec![1, 7], find(text, pattern, &map, 0));
    assert_eq!(vec![1], find(text, pattern, &map, 1));
    assert_eq!(vec![7, 1], rfind(text, pattern, &map_rev, 0));
    assert_eq!(vec![7], rfind(text, pattern, &map_rev, 1));
}

#[test]
fn latin_1_free_functions_find_nothing_for_an_empty_pattern() {
    let text = "coocoocoocoo";
    let map = BMLatin1BadCharShiftMap::create_bad_char_shift_map("x").unwrap();
    let map_rev = BMLatin1BadCharShiftMapRev::create_bad_char_shift_map("x").unwrap();

    assert_eq!(Vec::<usize>::new(), find_full(text, "", &map, 0));
    assert_eq!(Vec::<usize>::new(), rfind_full(text, "", &map_rev, 0));
    assert_eq!(Vec::<usize>::new(), find(text, "", &map, 0));
    assert_eq!(Vec::<usize>::new(), rfind(text, "", &map_rev, 0));
}

#[test]
fn latin_1_empty_pattern_is_refused() {
    assert!(BMLatin1::from("").is_none());
    assert!(BMLatin1::from(String::new()).is_none());
    assert!(BMLatin1::from(Vec::<u8>::new()).is_none());
    assert!(BMLatin1BadCharShiftMap::create_bad_char_shift_map("").is_none());
    assert!(BMLatin1BadCharShiftMapRev::create_bad_char_shift_map("").is_none());
    assert!(BMLatin1::from("a").is_some());
}

#[test]
fn latin_1_table_values() {
    let map = BMLatin1BadCharShiftMap::create_bad_char_shift_map("abcab").unwrap();
    assert_eq!(256, map.len());
    assert_eq!(1, map[b'a' as usize]);
    assert_eq!(3, map[b'b' as usize]);
    assert_eq!(2, map[b'c' as usize]);
    assert_eq!(5, map[b'x' as usize]);

    let map = BMLatin1BadCharShiftMapRev::create_bad_char_shift_map("abcab").unwrap();
    assert_eq!(256, map.len());
    assert_eq!(3, map[b'a' as usize]);
    assert_eq!(1, map[b'b' as usize]);
    assert_eq!(2, map[b'c' as usize]);
    assert_eq!(5, map[b'x' as usize]);
}

#[test]
fn latin_1_text_shorter_than_pattern() {
    let bml = BMLatin1::from("oocoo").unwrap();

    for text in ["", "o", "ooco"] {
        assert_eq!(Vec::<usize>::new(), bml.find_full_all_in(text));
        assert_eq!(Vec::<usize>::new(), bml.find_full_in(text, 3));
        assert_eq!(None, bml.find_full_first_in(text));
        assert_eq!(Vec::<usize>::new(), bml.rfind_full_all_in(text));
        assert_eq!(Vec::<usize>::new(), bml.rfind_full_in(text, 3));
        assert_eq!(None, bml.rfind_full_first_in(text));
        assert_eq!(Vec::<usize>::new(), bml.find_all_in(text));
        assert_eq!(Vec::<usize>::new(), bml.find_in(text, 3));
        assert_eq!(Vec::<usize>::new(), bml.rfind_all_in(text));
        assert_eq!(Vec::<usize>::new(), bml.rfind_in(text, 3));
        assert_eq!(None, bml.find_first_in(text));
        assert_eq!(None, bml.rfind_first_in(text));
    }
}

#[test]
fn latin_1_text_equal_to_pattern() {
    for pattern in ["a", "aa", "oocoo", "abcdefgh"] {
        let bml = BMLatin1::from(pattern).unwrap();

        assert_eq!(vec![0], bml.find_full_all_in(pattern));
        assert_eq!(vec![0], bml.rfind_full_all_in(pattern));
        assert_eq!(vec![0], bml.find_all_in(pattern));
        assert_eq!(vec![0], bml.rfind_all_in(pattern));
        assert_eq!(Some(0), bml.find_first_in(pattern));
        assert_eq!(Some(0), bml.rfind_first_in(pattern));
        assert_eq!(Some(0), bml.find_full_first_in(pattern));
        assert_eq!(Some(0), bml.rfind_full_first_in(pattern));
    }
}

#[test]
fn latin_1_limit_bounds_the_result() {
    let bml = BMLatin1::from("aa").unwrap();
    let text = "aaaaaaaa";

    assert_eq!(bml.find_full_all_in(text), bml.find_full_in(text, 0));
    assert_eq!(bml.rfind_full_all_in(text), bml.rfind_full_in(text, 0));
    assert_eq!(bml.find_all_in(text), bml.find_in(text, 0));
    assert_eq!(bml.rfind_all_in(text), bml.rfind_in(text, 0));

    for limit in 1..10 {
        let kept = limit.min(7);
        assert_eq!((0..kept).collect::<Vec<usize>>(), bml.find_full_in(text, limit));
        assert_eq!(
            (0..kept).map(|i| 6 - i).collect::<Vec<usize>>(),
            bml.rfind_full_in(text, limit)
        );
        let kept = limit.min(4);
        assert_eq!((0..kept).map(|i| 2 * i).collect::<Vec<usize>>(), bml.find_in(text, limit));
        assert_eq!(
            (0..kept).map(|i| 6 - 2 * i).collect::<Vec<usize>>(),
            bml.rfind_in(text, limit)
        );
    }
}

#[test]
fn latin_1_backward_scan_reaches_the_head_of_the_text() {
    // the lookahead shift at the head is one more than the pattern's length
    let bml = BMLatin1::from("abc").unwrap();

    assert_eq!(Vec::<usize>::new(), bml.rfind_full_all_in("xabd"));
    assert_eq!(Vec::<usize>::new(), bml.rfind_all_in("xabd"));
    assert_eq!(Vec::<usize>::new(), bml.rfind_full_all_in("xxabd"));
    assert_eq!(vec![0], bml.rfind_full_all_in("abcd"));
    assert_eq!(vec![4, 1], bml.rfind_full_all_in("xabcabc"));

    let bml = BMLatin1::from("ab").unwrap();
    assert_eq!(vec![2, 0], bml.rfind_all_in("abab"));
    assert_eq!(vec![0, 2], bml.find_all_in("abab"));
}

#[test]
fn latin_1_full_search_agrees_with_a_naive_scan() {
    for pattern_len in 1..=4usize {
        for pattern_bits in 0..(1u32 << pattern_len) {
            let pattern: Vec<u8> =
                (0..pattern_len).map(|i| 0xe0 + ((pattern_bits >> i) & 1) as u8).collect();
            let bml = BMLatin1::from(&pattern).unwrap();
            for text_len in 0..=9usize {
                for text_bits in 0..(1u32 << text_len) {
                    let text: Vec<u8> =
                        (0..text_len).map(|i| 0xe0 + ((text_bits >> i) & 1) as u8).collect();
                    let expected = naive(&pattern, &text);
                    assert_eq!(expected, bml.find_full_all_in(&text));
                    assert_eq!(keep_disjoint(&expected, pattern_len), bml.find_all_in(&text));
                    assert_eq!(
                        keep_disjoint_backward(&expected, pattern_len),
                        bml.rfind_all_in(&text)
                    );
                    for limit in 1..4 {
                        let n = expected.len().min(limit);
                        assert_eq!(expected[..n].to_vec(), bml.find_full_in(&text, limit));
                        assert!(bml.find_in(&text, limit).len() <= limit);
                        assert!(bml.rfind_in(&text, limit).len() <= limit);
                    }
                    let mut backward = bml.rfind_full_all_in(&text);
                    backward.reverse();
                    assert_eq!(expected, backward);
                    assert_eq!(expected.first().copied(), bml.find_full_first_in(&text));
                    assert_eq!(expected.last().copied(), bml.rfind_full_first_in(&text));
                    assert_eq!(expected.first().copied(), bml.find_first_in(&text));
                    assert_eq!(expected.last().copied(), bml.rfind_first_in(&text));
                }
            }
        }
    }
}

#[test]
fn latin_1_handles_of_one_pattern_agree() {
    let first = BMLatin1::from("oocoo").unwrap();
    let second = BMLatin1::from("oocoo").unwrap();

    assert_eq!(format!("{:?}", first), format!("{:?}", second));
    assert_eq!(first.find_full_all_in("coocoocoocoo"), second.find_full_all_in("coocoocoocoo"));
    assert_eq!(first.rfind_all_in("coocoocoocoo"), second.rfind_all_in("coocoocoocoo"));
}

#[test]
fn latin_1_text_is_taken_as_its_encoded_bytes() {
    let text = "caf\u{e9} \u{e9}";

    assert_eq!(8, BMLatin1Searchable::len(&text));
    assert_eq!(0xc3, BMLatin1Searchable::value_at(&text, 3));
    assert_eq!(0xa9, BMLatin1Searchable::value_at(&text, 4));
    assert_eq!(
        text.as_bytes().to_vec(),
        BMLatin1Searchable::iter(&text).copied().collect::<Vec<u8>>()
    );

    let owned = String::from(text);
    assert_eq!(8, BMLatin1Searchable::len(&owned));
    assert_eq!(0xc3, BMLatin1Searchable::value_at(&owned, 3));
    assert_eq!(8, BMLatin1Searchable::iter(&owned).count());

    let bytes: Vec<u8> = vec![1, 2, 3];
    assert_eq!(3, BMLatin1Searchable::len(&bytes));
    assert_eq!(2, BMLatin1Searchable::value_at(&bytes, 1));
    assert_eq!(vec![1, 2, 3], BMLatin1Searchable::iter(&bytes).copied().collect::<Vec<u8>>());
    assert_eq!(2, BMLatin1Searchable::len(&bytes[1..]));
    assert_eq!(3, BMLatin1Searchable::value_at(&bytes[1..], 1));
    assert_eq!(2, BMLatin1Searchable::iter(&bytes[1..]).count());
    assert_eq!(3, BMLatin1Searchable::len(&&bytes));
    assert_eq!(1, BMLatin1Searchable::value_at(&&bytes, 0));

    let bml = BMLatin1::from("\u{e9}").unwrap();
    assert_eq!(vec![3, 6], bml.find_full_all_in(text));
}

#[test]
fn latin_1_narrowing_keeps_latin_1_symbols() {
    let text: Vec<char> = "caf\u{e9} \u{e9}t\u{e9} \u{ff}\u{0}".chars().collect();

    assert!(fits_latin_1(&text));
    assert_eq!(
        vec![b'c', b'a', b'f', 0xe9, b' ', 0xe9, b't', 0xe9, b' ', 0xff, 0x00],
        narrow(&text)
    );
    assert!(fits_latin_1(&[]));
    assert_eq!(Vec::<u8>::new(), narrow(&[]));

    let pattern: Vec<char> = "\u{e9}".chars().collect();
    let bml = BMLatin1::from(narrow(&pattern)).unwrap();
    assert_eq!(vec![3, 5, 7], bml.find_full_all_in(narrow(&text)));
    assert_eq!(vec![7, 5, 3], bml.rfind_full_all_in(narrow(&text)));
}

#[test]
fn latin_1_narrowing_truncates_other_characters() {
    // U+4E2D narrows to 0x2D, the hyphen; U+0100 narrows to 0x00
    let text: Vec<char> = "a\u{4e2d}b-\u{100}".chars().collect();

    assert!(!fits_latin_1(&text));
    assert!(!fits_latin_1(&['\u{100}']));
    assert!(fits_latin_1(&['\u{ff}']));
    assert_eq!(vec![b'a', 0x2d, b'b', b'-', 0x00], narrow(&text));

    let bml = BMLatin1::from("-").unwrap();
    assert_eq!(vec![1, 3], bml.find_full_all_in(narrow(&text)));
}
