use markstore::text;

fn chars(s: &str) -> Vec<char> {
    s.chars().collect()
}

fn string(v: &[char]) -> String {
    v.iter().collect()
}

const SAMPLES: [&str; 10] = [
    "",
    " ",
    "one",
    "  two words \t\n",
    "a\nb\r\nc\rd\n",
    "\r\n\r\n",
    "aaa&&aaa",
    "\u{3000}wide\u{2003}space\u{a0}",
    "tail\r",
    "é—ü 字 x",
];

#[test]
fn white_space_is_that_of_unicode() {
    for u in 0..=0x10ffffu32 {
        if let Some(c) = char::from_u32(u) {
            assert_eq!(text::white(c), c.is_whitespace());
        }
    }
}

#[test]
fn texts_are_trimmed_and_divided() {
    for s in SAMPLES {
        let cs = chars(s);
        assert_eq!(string(text::trim(&cs)), s.trim());
        let lines: Vec<String> = text::lines(&cs).iter().map(|l| string(l)).collect();
        assert_eq!(lines, s.lines().collect::<Vec<_>>());
        let words: Vec<String> = text::words(&cs).iter().map(|l| string(l)).collect();
        assert_eq!(words, s.split_whitespace().collect::<Vec<_>>());
        assert_eq!(text::byte_len(&cs), s.len());
        assert_eq!(string(&text::lower_ascii(&cs)), s.to_ascii_lowercase());
    }
    assert_eq!(string(&text::lower_ascii(&chars("AZ[@`az"))), "az[@`az");
}

#[test]
fn parts_are_found_and_replaced() {
    let needles = ["a", "aa", "&", "\n", "\r\n", "é—", "zzz", " "];
    for s in SAMPLES {
        let cs = chars(s);
        for n in needles {
            let ns = chars(n);
            let at = s.find(n).map(|b| s[..b].chars().count());
            assert_eq!(text::find(&cs, &ns), at);
            let last = s.rfind(n).map(|b| s[..b].chars().count());
            assert_eq!(text::rfind(&cs, &ns), last);
            assert_eq!(string(&text::replace(&cs, n, "<>")), s.replace(n, "<>"));
            assert_eq!(text::starts_with(&cs, n), s.starts_with(n));
        }
    }
}

#[test]
fn texts_are_compared_like_strings() {
    for a in SAMPLES {
        for b in SAMPLES {
            assert_eq!(text::lex_before(&chars(a), &chars(b)), a < b);
            assert_eq!(text::same(a, b), a == b);
            assert_eq!(text::equals(&chars(a), b), a == b);
        }
    }
}

#[test]
fn numbers_are_written_and_padded() {
    for n in [0usize, 7, 10, 99, 12345, usize::MAX] {
        assert_eq!(string(&text::decimal_of(n)), format!("{}", n));
        let digits = text::decimal_of(n);
        assert_eq!(string(&text::pad_left(&digits, 4)), format!("{:4}", n));
    }
    for s in ["", "tag", "document", "a long text that is wider"] {
        assert_eq!(string(&text::pad_right(&chars(s), 12)), format!("{:12}", s));
    }
}

#[test]
fn parts_are_joined() {
    let parts = vec![chars("a"), chars(""), chars("b")];
    assert_eq!(string(&text::join(&parts, 0, 3, ", ")), "a, , b");
    assert_eq!(string(&text::join(&parts, 2, 3, ", ")), "b");
    assert_eq!(string(&text::join(&parts, 1, 1, ", ")), "");
    assert_eq!(text::concat("x", "y"), "xy");
}
