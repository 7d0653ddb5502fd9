use abstraktor::text::{
    ascii_letter, chars_of, comes_before, copy_range, find_in, parse_u32, push_decimal,
    same_chars, same_text, split_lines, split_words, stands_at, trim, white_space,
};

fn chars(s: &str) -> Vec<char> {
    s.chars().collect()
}

fn text(chars: &[char]) -> String {
    chars.iter().collect()
}

fn samples() -> Vec<&'static str> {
    vec![
        "",
        "a",
        "\n",
        "\r",
        "\r\n",
        "a\n",
        "a\r",
        "a\r\n",
        "a\nb",
        "a\n\nb",
        "a\r\n\r\nb\r\n",
        "a\r\rb\n",
        "\n\n\n",
        "foo\r\nbar\n\nbaz\r",
        "  lead and trail \t ",
        " \t\u{a0}\u{3000}x\u{2003}y\u{85} ",
        "\u{200b}zero width is ink\u{200b}",
        "one two  three\tfour\nfive",
        "->1->2",
        "caf\u{e9} \u{65e5}\u{672c}\u{8a9e}",
        "[Node 1 x] @ functionName f @ state s",
        "aaa",
        "aab",
        "ab",
        "B",
        "~",
        "42",
        "+42",
        "-42",
        "4294967295",
        "4294967296",
        "00000000000000000001",
        "99999999999999999999",
        "4 2",
        "42x",
        "+",
        "++1",
        "\u{663}",
    ]
}

#[test]
fn characters_of_a_string_in_order() {
    for s in samples() {
        assert_eq!(chars_of(s), chars(s));
    }
}

#[test]
fn lines_are_split_as_the_standard_library_splits_them() {
    for s in samples() {
        let got: Vec<String> = split_lines(&chars(s)).iter().map(|l| text(l)).collect();
        let want: Vec<String> = s.lines().map(|l| l.to_string()).collect();
        assert_eq!(got, want, "input {:?}", s);
    }
}

#[test]
fn lines_of_a_small_text() {
    let got: Vec<String> = split_lines(&chars("a\r\n\nb\rc\n"))
        .iter()
        .map(|l| text(l))
        .collect();
    assert_eq!(got, vec!["a", "", "b\rc"]);
}

#[test]
fn white_space_is_what_the_standard_library_calls_so() {
    for code in 0..=0x10FFFFu32 {
        if let Some(c) = char::from_u32(code) {
            assert_eq!(white_space(c), c.is_whitespace(), "U+{:04X}", code);
            assert_eq!(ascii_letter(c), c.is_ascii_alphabetic(), "U+{:04X}", code);
        }
    }
}

#[test]
fn trimming_takes_the_white_space_off_both_ends() {
    for s in samples() {
        assert_eq!(text(&trim(&chars(s))), s.trim(), "input {:?}", s);
    }
    assert_eq!(text(&trim(&chars(" \t a b \n"))), "a b");
    assert_eq!(text(&trim(&chars("   "))), "");
}

#[test]
fn words_are_the_stretches_without_white_space() {
    for s in samples() {
        let got: Vec<String> = split_words(&chars(s)).iter().map(|w| text(w)).collect();
        let want: Vec<String> = s.split_whitespace().map(|w| w.to_string()).collect();
        assert_eq!(got, want, "input {:?}", s);
    }
    let got: Vec<String> = split_words(&chars("  ab  c\td\n"))
        .iter()
        .map(|w| text(w))
        .collect();
    assert_eq!(got, vec!["ab", "c", "d"]);
}

#[test]
fn numbers_are_read_as_the_standard_library_reads_them() {
    for s in samples() {
        assert_eq!(parse_u32(&chars(s)), s.parse::<u32>().ok(), "input {:?}", s);
    }
    assert_eq!(parse_u32(&chars("0")), Some(0));
    assert_eq!(parse_u32(&chars("007")), Some(7));
    assert_eq!(parse_u32(&chars("4294967295")), Some(u32::MAX));
    assert_eq!(parse_u32(&chars("4294967296")), None);
    assert_eq!(parse_u32(&chars("")), None);
    assert_eq!(parse_u32(&chars("1_000")), None);
}

#[test]
fn numbers_are_written_without_leading_zeros() {
    for n in [0u32, 1, 9, 10, 11, 99, 100, 101, 4096, 1_000_000, u32::MAX - 1, u32::MAX] {
        let mut out = vec!['n'];
        push_decimal(n, &mut out);
        assert_eq!(text(&out), format!("n{}", n));
        assert_eq!(parse_u32(&out[1..]), Some(n));
    }
}

#[test]
fn first_place_of_a_pattern_is_found() {
    let patterns = ["", "a", "b", "ab", "->", " @ ", "\n", "aa", "zzz", "[Node "];
    for s in samples() {
        let haystack = chars(s);
        for p in patterns {
            let pattern = chars(p);
            let want = s.find(p).map(|byte| s[..byte].chars().count());
            assert_eq!(find_in(&haystack, &pattern, 0), want, "{:?} in {:?}", p, s);
            if let Some(at) = want {
                assert!(stands_at(&haystack, &pattern, at));
            }
        }
    }
    let haystack = chars("abcabc");
    assert_eq!(find_in(&haystack, &chars("bc"), 0), Some(1));
    assert_eq!(find_in(&haystack, &chars("bc"), 1), Some(1));
    assert_eq!(find_in(&haystack, &chars("bc"), 2), Some(4));
    assert_eq!(find_in(&haystack, &chars("bc"), 5), None);
    assert_eq!(find_in(&haystack, &chars("bc"), 60), None);
    assert_eq!(find_in(&haystack, &chars(""), 6), Some(6));
    assert_eq!(find_in(&haystack, &chars(""), 7), None);
    assert!(!stands_at(&haystack, &chars("bc"), 5));
    assert!(!stands_at(&haystack, &chars("bc"), 0));
}

#[test]
fn texts_are_ordered_as_the_standard_library_orders_them() {
    for a in samples() {
        for b in samples() {
            assert_eq!(comes_before(&chars(a), &chars(b)), a < b, "{:?} < {:?}", a, b);
            assert_eq!(same_text(a, b), a == b);
            assert_eq!(same_chars(&chars(a), &chars(b)), a == b);
        }
    }
    assert!(comes_before(&chars("ab"), &chars("abc")));
    assert!(!comes_before(&chars("abc"), &chars("ab")));
    assert!(!comes_before(&chars("ab"), &chars("ab")));
    assert!(comes_before(&chars("Z"), &chars("a")));
}

#[test]
fn a_range_is_copied_out() {
    let all = chars("abcdef");
    assert_eq!(text(&copy_range(&all, 1, 4)), "bcd");
    assert_eq!(text(&copy_range(&all, 0, 6)), "abcdef");
    assert_eq!(text(&copy_range(&all, 3, 3)), "");
}
