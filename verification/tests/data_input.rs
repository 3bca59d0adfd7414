use boyer_moore_magiclen::latin_1::narrow;
use boyer_moore_magiclen::{BMByte, BMCharacter, BMLatin1};

// Fixture format: the number of patterns; for each pattern its line, the
// number of texts, and for each text its line followed by a line holding the
// number of occurrences and their offsets, overlapping ones among them.

const LATIN_1_DATA: &str = "\
8\n\
oocoo\n\
5\n\
coocoocoocoo\n\
3 1 4 7\n\
oocoo\n\
1 0\n\
ooco\n\
0\n\
xoocooocoooocoo\n\
3 1 5 10\n\
cccccccccccc\n\
0\n\
a\n\
5\n\
aaaa\n\
4 0 1 2 3\n\
bab\n\
1 1\n\
b\n\
0\n\
a\n\
1 0\n\
banana\n\
3 1 3 5\n\
aa\n\
4\n\
aaaaaaa\n\
6 0 1 2 3 4 5\n\
aabaabaaa\n\
4 0 3 6 7\n\
ab\n\
0\n\
baab\n\
1 1\n\
ab\n\
4\n\
abab\n\
2 0 2\n\
ababab\n\
3 0 2 4\n\
ab\n\
1 0\n\
ba\n\
0\n\
abab\n\
4\n\
abababababab\n\
5 0 2 4 6 8\n\
ababxabab\n\
2 0 5\n\
xababab\n\
2 1 3\n\
babababa\n\
2 1 3\n\
needle\n\
4\n\
haystack with a needle in it, and a needle after the needle\n\
3 16 36 53\n\
needleneedleneedle\n\
3 0 6 12\n\
needl\n\
0\n\
eedle needle\n\
1 6\n\
aab\n\
4\n\
aabaabaab\n\
3 0 3 6\n\
aaab\n\
1 1\n\
baaab aab\n\
2 2 6\n\
aaaaaaaaaab\n\
1 8\n\
the quick\n\
1\n\
the quick brown fox; the quick; the quic; the quickthe quick\n\
4 0 21 42 51\n\
";

const UTF8_DATA: &str = "\
11\n\
oocoo\n\
5\n\
coocoocoocoo\n\
3 1 4 7\n\
oocoo\n\
1 0\n\
ooco\n\
0\n\
xoocooocoooocoo\n\
3 1 5 10\n\
cccccccccccc\n\
0\n\
a\n\
5\n\
aaaa\n\
4 0 1 2 3\n\
bab\n\
1 1\n\
b\n\
0\n\
a\n\
1 0\n\
banana\n\
3 1 3 5\n\
aa\n\
4\n\
aaaaaaa\n\
6 0 1 2 3 4 5\n\
aabaabaaa\n\
4 0 3 6 7\n\
ab\n\
0\n\
baab\n\
1 1\n\
ab\n\
4\n\
abab\n\
2 0 2\n\
ababab\n\
3 0 2 4\n\
ab\n\
1 0\n\
ba\n\
0\n\
abab\n\
4\n\
abababababab\n\
5 0 2 4 6 8\n\
ababxabab\n\
2 0 5\n\
xababab\n\
2 1 3\n\
babababa\n\
2 1 3\n\
needle\n\
4\n\
haystack with a needle in it, and a needle after the needle\n\
3 16 36 53\n\
needleneedleneedle\n\
3 0 6 12\n\
needl\n\
0\n\
eedle needle\n\
1 6\n\
aab\n\
4\n\
aabaabaab\n\
3 0 3 6\n\
aaab\n\
1 1\n\
baaab aab\n\
2 2 6\n\
aaaaaaaaaab\n\
1 8\n\
the quick\n\
1\n\
the quick brown fox; the quick; the quic; the quickthe quick\n\
4 0 21 42 51\n\
\u{e9}\n\
3\n\
caf\u{e9} \u{e9}t\u{e9}\n\
3 3 6 9\n\
\u{e9}\u{e9}\u{e9}\n\
3 0 2 4\n\
e\n\
0\n\
\u{4e2d}\u{6587}\n\
3\n\
\u{4e2d}\u{6587}\u{4e2d}\u{6587}\u{4e2d}\n\
2 0 6\n\
\u{6587}\u{4e2d}\u{6587}\u{4e2d}\u{6587}\n\
2 3 9\n\
abc\u{4e2d}\u{6587}\n\
1 3\n\
\u{f1}a\u{f1}a\n\
2\n\
\u{f1}a\u{f1}a\u{f1}a\u{f1}a\n\
3 0 3 6\n\
ma\u{f1}ana \u{f1}a\u{f1}a\n\
1 8\n\
";

const CHARACTER_DATA: &str = "\
11\n\
oocoo\n\
5\n\
coocoocoocoo\n\
3 1 4 7\n\
oocoo\n\
1 0\n\
ooco\n\
0\n\
xoocooocoooocoo\n\
3 1 5 10\n\
cccccccccccc\n\
0\n\
a\n\
5\n\
aaaa\n\
4 0 1 2 3\n\
bab\n\
1 1\n\
b\n\
0\n\
a\n\
1 0\n\
banana\n\
3 1 3 5\n\
aa\n\
4\n\
aaaaaaa\n\
6 0 1 2 3 4 5\n\
aabaabaaa\n\
4 0 3 6 7\n\
ab\n\
0\n\
baab\n\
1 1\n\
ab\n\
4\n\
abab\n\
2 0 2\n\
ababab\n\
3 0 2 4\n\
ab\n\
1 0\n\
ba\n\
0\n\
abab\n\
4\n\
abababababab\n\
5 0 2 4 6 8\n\
ababxabab\n\
2 0 5\n\
xababab\n\
2 1 3\n\
babababa\n\
2 1 3\n\
needle\n\
4\n\
haystack with a needle in it, and a needle after the needle\n\
3 16 36 53\n\
needleneedleneedle\n\
3 0 6 12\n\
needl\n\
0\n\
eedle needle\n\
1 6\n\
aab\n\
4\n\
aabaabaab\n\
3 0 3 6\n\
aaab\n\
1 1\n\
baaab aab\n\
2 2 6\n\
aaaaaaaaaab\n\
1 8\n\
the quick\n\
1\n\
the quick brown fox; the quick; the quic; the quickthe quick\n\
4 0 21 42 51\n\
\u{e9}\n\
3\n\
caf\u{e9} \u{e9}t\u{e9}\n\
3 3 5 7\n\
\u{e9}\u{e9}\u{e9}\n\
3 0 1 2\n\
e\n\
0\n\
\u{4e2d}\u{6587}\n\
3\n\
\u{4e2d}\u{6587}\u{4e2d}\u{6587}\u{4e2d}\n\
2 0 2\n\
\u{6587}\u{4e2d}\u{6587}\u{4e2d}\u{6587}\n\
2 1 3\n\
abc\u{4e2d}\u{6587}\n\
1 3\n\
\u{f1}a\u{f1}a\n\
2\n\
\u{f1}a\u{f1}a\u{f1}a\u{f1}a\n\
3 0 2 4\n\
ma\u{f1}ana \u{f1}a\u{f1}a\n\
1 7\n\
";


/// Reads a fixture and hands each text with its pattern and the expected
/// results to `f`: every occurrence, then the occurrences a forward scan
/// keeps when overlapping ones are passed over, then those a backward scan
/// keeps. `length` measures a pattern or a text in the unit of the offsets.
fn data_input<L: Fn(&str) -> usize, F: Fn(&str, &str, Vec<usize>, Vec<usize>, Vec<usize>)>(
    data: &str,
    length: L,
    f: F,
) {
    let mut lines = data.lines();

    let pattern_count: usize = lines.next().unwrap().trim().parse().unwrap();

    for _ in 0..pattern_count {
        let pattern = lines.next().unwrap();

        let text_count: usize = lines.next().unwrap().trim().parse().unwrap();

        for _ in 0..text_count {
            let text = lines.next().unwrap();

            let mut numbers = lines.next().unwrap().split_whitespace();

            let answer_count: usize = numbers.next().unwrap().parse().unwrap();

            let mut answer = Vec::with_capacity(answer_count);

            for _ in 0..answer_count {
                answer.push(numbers.next().unwrap().parse::<usize>().unwrap());
            }
            assert!(numbers.next().is_none());

            let pattern_length = length(pattern);

            let mut answer_not_full = Vec::with_capacity(answer.len());

            let mut min_index = 0;

            for &index in answer.iter() {
                if index >= min_index {
                    answer_not_full.push(index);

                    min_index = index + pattern_length;
                }
            }

            let mut answer_not_full_rev = Vec::with_capacity(answer.len());

            let mut max_index = length(text);

            for &index in answer.iter().rev() {
                if index <= max_index {
                    answer_not_full_rev.push(index);

                    if index >= pattern_length {
                        max_index = index - pattern_length;
                    } else {
                        break;
                    }
                }
            }

            f(text, pattern, answer, answer_not_full, answer_not_full_rev)
        }
    }
    assert!(lines.next().is_none());
}

fn reversed(answer: &[usize]) -> Vec<usize> {
    answer.iter().rev().copied().collect()
}

#[test]
fn character_data_input_from_file() {
    data_input(
        CHARACTER_DATA,
        |s| s.chars().count(),
        |text, pattern, answer, answer_not_full, answer_not_full_rev| {
            let pattern = pattern.chars().collect::<Vec<char>>();
            let text = text.chars().collect::<Vec<char>>();

            let bm = BMCharacter::from(&pattern).unwrap();

            assert_eq!(answer.clone(), bm.find_full_all_in(&text));
            assert_eq!(reversed(&answer), bm.rfind_full_all_in(&text));
            assert_eq!(answer_not_full.clone(), bm.find_all_in(&text));
            assert_eq!(answer_not_full_rev.clone(), bm.rfind_all_in(&text));
        },
    );
}

#[test]
fn latin_1_data_input_from_file() {
    data_input(
        LATIN_1_DATA,
        |s| s.len(),
        |text, pattern, answer, answer_not_full, answer_not_full_rev| {
            let pattern_bytes: Vec<u8> = pattern.as_bytes().to_vec();
            let text_bytes: Vec<u8> = text.as_bytes().to_vec();

            let bm = BMLatin1::from(&pattern_bytes).unwrap();

            assert_eq!(answer.clone(), bm.find_full_all_in(&text_bytes));
            assert_eq!(reversed(&answer), bm.rfind_full_all_in(&text_bytes));
            assert_eq!(answer_not_full.clone(), bm.find_all_in(&text_bytes));
            assert_eq!(answer_not_full_rev.clone(), bm.rfind_all_in(&text_bytes));

            let bm = BMLatin1::from(pattern).unwrap();

            assert_eq!(answer.clone(), bm.find_full_all_in(text));
            assert_eq!(reversed(&answer), bm.rfind_full_all_in(text));
            assert_eq!(answer_not_full.clone(), bm.find_all_in(text));
            assert_eq!(answer_not_full_rev.clone(), bm.rfind_all_in(text));

            let pattern = pattern.chars().collect::<Vec<char>>();
            let text = text.chars().collect::<Vec<char>>();

            let bm = BMLatin1::from(narrow(&pattern)).unwrap();

            assert_eq!(answer.clone(), bm.find_full_all_in(narrow(&text)));
            assert_eq!(reversed(&answer), bm.rfind_full_all_in(narrow(&text)));
            assert_eq!(answer_not_full.clone(), bm.find_all_in(narrow(&text)));
            assert_eq!(answer_not_full_rev.clone(), bm.rfind_all_in(narrow(&text)));
        },
    );
}

#[test]
fn utf8_data_input_from_file() {
    data_input(
        UTF8_DATA,
        |s| s.len(),
        |text, pattern, answer, answer_not_full, answer_not_full_rev| {
            let bm = BMByte::from(pattern.as_bytes()).unwrap();

            assert_eq!(answer.clone(), bm.find_full_all_in(text.as_bytes()));
            assert_eq!(reversed(&answer), bm.rfind_full_all_in(text.as_bytes()));
            assert_eq!(answer_not_full.clone(), bm.find_all_in(text.as_bytes()));
            assert_eq!(answer_not_full_rev.clone(), bm.rfind_all_in(text.as_bytes()));
        },
    );
}
