use boyer_moore_magiclen::byte::{find, find_full, rfind, rfind_full};
use boyer_moore_magiclen::{BMByte, BMByteBadCharShiftMap, BMByteBadCharShiftMapRev, LenTrait};

const TEXT: &[u8] = b"coocoocoocoo";

fn naive(pattern: &[u8], text: &[u8]) -> Vec<usize> {
    let mut found = Vec::new();
    if pattern.is_empty() || pattern.len() > text.len() {
        return found;
    }
    for o in 0..=text.len() - pattern.len() {
        let mut same = true;
        for i in 0..pattern.len() {
            if text[o + i] != pattern[i] {
                same = false;
            }
        }
        if same {
            found.push(o);
        }
    }
    found
}

fn keep_disjoint(occurrences: &[usize], pattern_len: usize) -> Vec<usize> {
    let mut kept: Vec<usize> = Vec::new();
    for &o in occurrences {
        if kept.last().map_or(true, |&k| o >= k + pattern_len) {
            kept.push(o);
        }
    }
    kept
}

fn keep_disjoint_backward(occurrences: &[usize], pattern_len: usize) -> Vec<usize> {
    let mut kept: Vec<usize> = Vec::new();
    for &o in occurrences.iter().rev() {
        if kept.last().map_or(true, |&k| o + pattern_len <= k) {
            kept.push(o);
        }
    }
    kept
}

#[test]
fn byte_scenario_oocoo() {
    let bmb = BMByte::from(b"oocoo").unwrap();

    assert_eq!(vec![1, 4, 7], bmb.find_full_all_in(TEXT));
    assert_eq!(vec![1, 4], bmb.find_full_in(TEXT, 2));
    assert_eq!(vec![1, 7], bmb.find_all_in(TEXT));
    assert_eq!(vec![7, 4, 1], bmb.rfind_full_all_in(TEXT));
    assert_eq!(vec![7, 4], bmb.rfind_full_in(TEXT, 2));
    assert_eq!(vec![7, 1], bmb.rfind_all_in(TEXT));
    assert_eq!(Some(1), bmb.find_first_in(TEXT));
    assert_eq!(Some(7), bmb.rfind_first_in(TEXT));
    assert_eq!(vec![1], bmb.find_in(TEXT, 1));
    assert_eq!(vec![7], bmb.rfind_in(TEXT, 1));
    assert_eq!(vec![1, 7], bmb.find_in(TEXT, 2));
    assert_eq!(vec![7, 1], bmb.rfind_in(TEXT, 2));
}

#[test]
fn byte_free_functions_take_the_table_of_the_pattern() {
    let pattern: &[u8] = b"oocoo";
    let map = BMByteBadCharShiftMap::create_bad_char_shift_map(pattern).unwrap();
    let map_rev = BMByteBadCharShiftMapRev::create_bad_char_shift_map(pattern).unwrap();

    assert_eq!(vec![1, 4, 7], find_full(TEXT, pattern, &map, 0));
    assert_eq!(vec![1, 4], find_full(TEXT, pattern, &map, 2));
    assert_eq!(vec![7, 4, 1], rfind_full(TEXT, pattern, &map_rev, 0));
    assert_eq!(vec![7], rfind_full(TEXT, pattern, &map_rev, 1));
    assert_eq!(vec![1, 7], find(TEXT, pattern, &map, 0));
    assert_eq!(vec![1], find(TEXT, pattern, &map, 1));
    assert_eq!(vec![7, 1], rfind(TEXT, pattern, &map_rev, 0));
    assert_eq!(vec![7], rfind(TEXT, pattern, &map_rev, 1));
}

#[test]
fn byte_free_functions_find_nothing_for_an_empty_pattern() {
    let map = BMByteBadCharShiftMap::create_bad_char_shift_map(b"x").unwrap();
    let map_rev = BMByteBadCharShiftMapRev::create_bad_char_shift_map(b"x").unwrap();

    assert_eq!(Vec::<usize>::new(), find_full(TEXT, b"", &map, 0));
    assert_eq!(Vec::<usize>::new(), rfind_full(TEXT, b"", &map_rev, 0));
    assert_eq!(Vec::<usize>::new(), find(TEXT, b"", &map, 0));
    assert_eq!(Vec::<usize>::new(), rfind(TEXT, b"", &map_rev, 0));
}

#[test]
fn byte_empty_pattern_is_refused() {
    assert!(BMByte::from(b"").is_none());
    assert!(BMByteBadCharShiftMap::create_bad_char_shift_map(b"").is_none());
    assert!(BMByteBadCharShiftMapRev::create_bad_char_shift_map(b"").is_none());
    assert!(BMByte::from(b"a").is_some());
}

#[test]
fn byte_forward_table_values() {
    let map = BMByteBadCharShiftMap::create_bad_char_shift_map(b"oocoo").unwrap();

    assert_eq!(256, map.len());
    // last occurrence before the final place: 'o' at 3, 'c' at 2
    assert_eq!(1, map[b'o' as usize]);
    assert_eq!(2, map[b'c' as usize]);
    assert_eq!(5, map[b'x' as usize]);
    assert_eq!(5, map[0]);
    assert_eq!(5, map[255]);

    let map = BMByteBadCharShiftMap::create_bad_char_shift_map(b"abcab").unwrap();
    assert_eq!(1, map[b'a' as usize]);
    assert_eq!(3, map[b'b' as usize]);
    assert_eq!(2, map[b'c' as usize]);

    // the final symbol alone gives no entry
    let map = BMByteBadCharShiftMap::create_bad_char_shift_map(b"abc").unwrap();
    assert_eq!(2, map[b'a' as usize]);
    assert_eq!(1, map[b'b' as usize]);
    assert_eq!(3, map[b'c' as usize]);

    let map = BMByteBadCharShiftMap::create_bad_char_shift_map(b"a").unwrap();
    assert_eq!(1, map[b'a' as usize]);
    assert_eq!(1, map[b'b' as usize]);
}

#[test]
fn byte_backward_table_values() {
    let map = BMByteBadCharShiftMapRev::create_bad_char_shift_map(b"oocoo").unwrap();

    assert_eq!(256, map.len());
    // first occurrence after the first place: 'o' at 1, 'c' at 2
    assert_eq!(1, map[b'o' as usize]);
    assert_eq!(2, map[b'c' as usize]);
    assert_eq!(5, map[b'x' as usize]);

    let map = BMByteBadCharShiftMapRev::create_bad_char_shift_map(b"abcab").unwrap();
    assert_eq!(3, map[b'a' as usize]);
    assert_eq!(1, map[b'b' as usize]);
    assert_eq!(2, map[b'c' as usize]);

    // the first symbol alone gives no entry
    let map = BMByteBadCharShiftMapRev::create_bad_char_shift_map(b"abc").unwrap();
    assert_eq!(3, map[b'a' as usize]);
    assert_eq!(1, map[b'b' as usize]);
    assert_eq!(2, map[b'c' as usize]);
}

#[test]
fn byte_text_shorter_than_pattern() {
    let bmb = BMByte::from(b"oocoo").unwrap();

    for text in [&b""[..], &b"o"[..], &b"ooco"[..]] {
        assert_eq!(Vec::<usize>::new(), bmb.find_full_all_in(text));
        assert_eq!(Vec::<usize>::new(), bmb.find_full_in(text, 3));
        assert_eq!(Vec::<usize>::new(), bmb.rfind_full_all_in(text));
        assert_eq!(Vec::<usize>::new(), bmb.rfind_full_in(text, 3));
        assert_eq!(Vec::<usize>::new(), bmb.find_all_in(text));
        assert_eq!(Vec::<usize>::new(), bmb.find_in(text, 3));
        assert_eq!(Vec::<usize>::new(), bmb.rfind_all_in(text));
        assert_eq!(Vec::<usize>::new(), bmb.rfind_in(text, 3));
        assert_eq!(None, bmb.find_first_in(text));
        assert_eq!(None, bmb.rfind_first_in(text));
    }
}

#[test]
fn byte_text_equal_to_pattern() {
    for pattern in [&b"a"[..], &b"aa"[..], &b"oocoo"[..], &b"abcdefgh"[..]] {
        let bmb = BMByte::from(pattern).unwrap();

        assert_eq!(vec![0], bmb.find_full_all_in(pattern));
        assert_eq!(vec![0], bmb.rfind_full_all_in(pattern));
        assert_eq!(vec![0], bmb.find_all_in(pattern));
        assert_eq!(vec![0], bmb.rfind_all_in(pattern));
        assert_eq!(Some(0), bmb.find_first_in(pattern));
        assert_eq!(Some(0), bmb.rfind_first_in(pattern));
    }
}

#[test]
fn byte_no_match_is_empty() {
    let bmb = BMByte::from(b"xyz").unwrap();

    assert_eq!(Vec::<usize>::new(), bmb.find_full_all_in(TEXT));
    assert_eq!(Vec::<usize>::new(), bmb.rfind_full_all_in(TEXT));
    assert_eq!(Vec::<usize>::new(), bmb.find_all_in(TEXT));
    assert_eq!(Vec::<usize>::new(), bmb.rfind_all_in(TEXT));
    assert_eq!(None, bmb.find_first_in(TEXT));
    assert_eq!(None, bmb.rfind_first_in(TEXT));
}

#[test]
fn byte_limit_bounds_the_result() {
    let bmb = BMByte::from(b"aa").unwrap();
    let text: &[u8] = b"aaaaaaaa";

    assert_eq!(vec![0, 1, 2, 3, 4, 5, 6], bmb.find_full_in(text, 0));
    assert_eq!(bmb.find_full_all_in(text), bmb.find_full_in(text, 0));
    assert_eq!(bmb.rfind_full_all_in(text), bmb.rfind_full_in(text, 0));
    assert_eq!(bmb.find_all_in(text), bmb.find_in(text, 0));
    assert_eq!(bmb.rfind_all_in(text), bmb.rfind_in(text, 0));

    for limit in 1..10 {
        let kept = limit.min(7);
        assert_eq!((0..kept).collect::<Vec<usize>>(), bmb.find_full_in(text, limit));
        assert_eq!(
            (0..kept).map(|i| 6 - i).collect::<Vec<usize>>(),
            bmb.rfind_full_in(text, limit)
        );
        let kept = limit.min(4);
        assert_eq!((0..kept).map(|i| 2 * i).collect::<Vec<usize>>(), bmb.find_in(text, limit));
        assert_eq!(
            (0..kept).map(|i| 6 - 2 * i).collect::<Vec<usize>>(),
            bmb.rfind_in(text, limit)
        );
    }
}

#[test]
fn byte_backward_scan_keeps_an_occurrence_that_ends_where_the_last_began() {
    let bmb = BMByte::from(b"ab").unwrap();

    assert_eq!(vec![0, 2], bmb.find_all_in(b"abab"));
    assert_eq!(vec![2, 0], bmb.rfind_all_in(b"abab"));
    assert_eq!(vec![2, 0], bmb.rfind_full_all_in(b"abab"));
}

#[test]
fn byte_forward_and_backward_scans_may_keep_different_occurrences() {
    let bmb = BMByte::from(b"aa").unwrap();

    assert_eq!(vec![0, 2], bmb.find_all_in(b"aaaaa"));
    assert_eq!(vec![3, 1], bmb.rfind_all_in(b"aaaaa"));
}

#[test]
fn byte_full_search_agrees_with_a_naive_scan() {
    // every text over {a, b} of up to 9 symbols, every pattern of up to 4
    for pattern_len in 1..=4usize {
        for pattern_bits in 0..(1u32 << pattern_len) {
            let pattern: Vec<u8> =
                (0..pattern_len).map(|i| b'a' + ((pattern_bits >> i) & 1) as u8).collect();
            let bmb = BMByte::from(&pattern).unwrap();
            for text_len in 0..=9usize {
                for text_bits in 0..(1u32 << text_len) {
                    let text: Vec<u8> =
                        (0..text_len).map(|i| b'a' + ((text_bits >> i) & 1) as u8).collect();
                    let expected = naive(&pattern, &text);
                    assert_eq!(expected, bmb.find_full_all_in(&text));
                    assert_eq!(keep_disjoint(&expected, pattern_len), bmb.find_all_in(&text));
                    assert_eq!(
                        keep_disjoint_backward(&expected, pattern_len),
                        bmb.rfind_all_in(&text)
                    );
                    for limit in 1..4 {
                        let n = expected.len().min(limit);
                        assert_eq!(expected[..n].to_vec(), bmb.find_full_in(&text, limit));
                        assert!(bmb.find_in(&text, limit).len() <= limit);
                        assert!(bmb.rfind_in(&text, limit).len() <= limit);
                    }
                    let mut backward = bmb.rfind_full_all_in(&text);
                    backward.reverse();
                    assert_eq!(expected, backward);
                    assert_eq!(expected.first().copied(), bmb.find_first_in(&text));
                    assert_eq!(expected.last().copied(), bmb.rfind_first_in(&text));
                }
            }
        }
    }
}

#[test]
fn byte_highly_repetitive_input() {
    let text = vec![b'a'; 2000];
    let bmb = BMByte::from(&text[..7]).unwrap();

    assert_eq!((0..=1993).collect::<Vec<usize>>(), bmb.find_full_all_in(&text));
    assert_eq!((0..=1993).rev().collect::<Vec<usize>>(), bmb.rfind_full_all_in(&text));
    assert_eq!((0..285).map(|i| 7 * i).collect::<Vec<usize>>(), bmb.find_all_in(&text));
    assert_eq!((0..285).map(|i| 1993 - 7 * i).collect::<Vec<usize>>(), bmb.rfind_all_in(&text));
}

#[test]
fn byte_handles_of_one_pattern_agree() {
    let first = BMByte::from(b"oocoo").unwrap();
    let second = BMByte::from(b"oocoo").unwrap();

    assert_eq!(format!("{:?}", first), format!("{:?}", second));
    assert_eq!(first.find_full_all_in(TEXT), second.find_full_all_in(TEXT));
    assert_eq!(first.rfind_all_in(TEXT), second.rfind_all_in(TEXT));

    let map = BMByteBadCharShiftMap::create_bad_char_shift_map(b"oocoo").unwrap();
    let again = BMByteBadCharShiftMap::create_bad_char_shift_map(b"oocoo").unwrap();
    assert_eq!(&map[..], &again[..]);
}

#[test]
fn byte_utf8_text_is_searched_by_bytes() {
    let bmb = BMByte::from("\u{e9}".as_bytes()).unwrap();

    assert_eq!(vec![3, 6, 8], bmb.find_full_all_in("caf\u{e9} \u{e9}\u{e9}".as_bytes()));
}

#[test]
fn byte_len_trait() {
    let v: Vec<u8> = vec![1, 2, 3];
    assert_eq!(3, LenTrait::len(&v));
    assert_eq!(2, LenTrait::len(&v[1..]));
}
