use flounder::text::{
    byte_len, same_text, split_line, starts_with, strip_prefix, truncated,
};

#[test]
fn split_line_splits_at_the_first_line_feed() {
    assert_eq!(split_line("a\nb\nc"), ("a", "b\nc"));
    assert_eq!(split_line("a\r\nb"), ("a", "b"));
    assert_eq!(split_line("\nb"), ("", "b"));
    assert_eq!(split_line("a\n"), ("a", ""));
    assert_eq!(split_line("a\r\r\n"), ("a\r", ""));
}

#[test]
fn split_line_without_a_line_feed_gives_all() {
    assert_eq!(split_line("abc"), ("abc", ""));
    assert_eq!(split_line("abc\r"), ("abc\r", ""));
    assert_eq!(split_line(""), ("", ""));
}

#[test]
fn split_line_passes_characters_of_several_bytes() {
    assert_eq!(split_line("\u{e9}\u{4e2d}\n\u{1f600}"), ("\u{e9}\u{4e2d}", "\u{1f600}"));
}

#[test]
fn starts_with_compares_characters() {
    assert!(starts_with("```x", "```"));
    assert!(starts_with("abc", ""));
    assert!(starts_with("", ""));
    assert!(!starts_with("ab", "abc"));
    assert!(!starts_with("abd", "abc"));
    assert!(starts_with("\u{e9}a", "\u{e9}"));
    assert!(!starts_with("\u{e9}a", "\u{e8}"));
}

#[test]
fn strip_prefix_gives_what_follows() {
    assert_eq!(strip_prefix("=> x", "=>"), Some(" x"));
    assert_eq!(strip_prefix("=>", "=>"), Some(""));
    assert_eq!(strip_prefix("= >", "=>"), None);
    assert_eq!(strip_prefix("\u{4e2d}\u{6587}", "\u{4e2d}"), Some("\u{6587}"));
}

#[test]
fn same_text_is_equality() {
    assert!(same_text("gemini", "gemini"));
    assert!(same_text("", ""));
    assert!(!same_text("gemini", "gemin"));
    assert!(!same_text("gemin", "gemini"));
    assert!(!same_text("gemini", "Gemini"));
}

#[test]
fn truncated_keeps_whole_characters_within_the_limit() {
    assert_eq!(truncated("hello", 10), "hello");
    assert_eq!(truncated("hello", 5), "hello");
    assert_eq!(truncated("hello", 3), "hel");
    assert_eq!(truncated("hello", 0), "");
    assert_eq!(truncated("a\u{e9}b", 2), "a");
    assert_eq!(truncated("a\u{e9}b", 3), "a\u{e9}");
    assert_eq!(truncated("\u{1f600}", 3), "");
}

#[test]
fn byte_len_counts_bytes() {
    assert_eq!(byte_len(""), 0);
    assert_eq!(byte_len("abc"), 3);
    assert_eq!(byte_len("\u{e9}\u{4e2d}\u{1f600}"), 9);
}

fn sample_texts() -> Vec<String> {
    let alphabet = ["a", "b", "\n", "\r", "\n", "\u{e9}", "\u{4e2d}", "\u{1f600}", " ", "\t"];
    let mut seed: u64 = 0x9e37_79b9_7f4a_7c15;
    let mut texts = Vec::new();
    for _ in 0..3000 {
        let mut text = String::new();
        seed = seed.wrapping_mul(6364136223846793005).wrapping_add(1442695040888963407);
        let len = (seed >> 60) as usize;
        for _ in 0..len {
            seed = seed.wrapping_mul(6364136223846793005).wrapping_add(1442695040888963407);
            text.push_str(alphabet[(seed >> 33) as usize % alphabet.len()]);
        }
        texts.push(text);
    }
    texts
}

#[test]
fn split_line_walks_the_lines_of_str_on_many_texts() {
    for text in sample_texts() {
        let mut found = Vec::new();
        let mut rest: &str = &text;
        while !rest.is_empty() {
            let (line, next) = split_line(rest);
            found.push(line);
            rest = next;
        }
        let expected: Vec<&str> = text.lines().collect();
        assert_eq!(found, expected, "for {:?}", text);
    }
}

#[test]
fn truncated_is_the_longest_prefix_within_the_limit_on_many_texts() {
    for text in sample_texts() {
        for limit in 0..=text.len() + 1 {
            let mut end = limit.min(text.len());
            while !text.is_char_boundary(end) {
                end -= 1;
            }
            assert_eq!(truncated(&text, limit), &text[..end], "for {:?} at {}", text, limit);
        }
    }
}

#[test]
fn prefix_tests_agree_with_str_on_many_texts() {
    let texts = sample_texts();
    for pair in texts.windows(2).take(1500) {
        let (a, b) = (&pair[0], &pair[1]);
        assert_eq!(starts_with(a, b), a.starts_with(b.as_str()));
        assert_eq!(strip_prefix(a, b), a.strip_prefix(b.as_str()));
        assert_eq!(same_text(a, b), a == b);
        let prefix: String = a.chars().take(2).collect();
        assert!(starts_with(a, &prefix));
        assert_eq!(strip_prefix(a, &prefix), Some(&a[prefix.len()..]));
    }
}
