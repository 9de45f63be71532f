use flounder::escape::{
    create_html_escape_table, escape_href, escape_html, escape_html_with, href_safe,
};

fn html(s: &str) -> String {
    let mut out = String::new();
    escape_html(&mut out, s);
    out
}

fn href(s: &str) -> String {
    let mut out = String::new();
    escape_href(&mut out, s);
    out
}

#[test]
fn escape_html_replaces_the_four_specials() {
    assert_eq!(html("<b>hacked</b>"), "&lt;b&gt;hacked&lt;/b&gt;");
    assert_eq!(html("\"&<>"), "&quot;&amp;&lt;&gt;");
}

#[test]
fn escape_html_is_not_idempotent() {
    let once = html("a & b");
    assert_eq!(once, "a &amp; b");
    assert_eq!(html(&once), "a &amp;amp; b");
}

#[test]
fn escape_html_of_the_empty_text_is_empty() {
    assert_eq!(html(""), "");
}

#[test]
fn escape_html_keeps_text_without_specials() {
    assert_eq!(html("plain text, 'single' quotes"), "plain text, 'single' quotes");
}

#[test]
fn escape_html_handles_a_special_at_the_end_and_specials_in_a_row() {
    assert_eq!(html("a<"), "a&lt;");
    assert_eq!(html("<<>>&&"), "&lt;&lt;&gt;&gt;&amp;&amp;");
}

#[test]
fn escape_html_keeps_characters_of_several_bytes() {
    assert_eq!(html("caf\u{e9} <\u{4e2d}\u{6587}> \u{1f600}&"), "caf\u{e9} &lt;\u{4e2d}\u{6587}&gt; \u{1f600}&amp;");
}

#[test]
fn escape_html_appends_to_what_is_there() {
    let mut out = String::from("<p>");
    escape_html(&mut out, "<");
    assert_eq!(out, "<p>&lt;");
}

#[test]
fn escape_html_with_a_table_agrees_with_escape_html() {
    let table = create_html_escape_table();
    for text in ["", "a", "<a href=\"x\">&</a>", "\u{e9}<\u{1f600}>"] {
        let mut out = String::new();
        escape_html_with(&table, &mut out, text);
        assert_eq!(out, html(text));
    }
}

#[test]
fn html_escape_table_marks_the_four_specials() {
    let table = create_html_escape_table();
    for b in 0..=255u8 {
        let expected = match b {
            b'"' => 1,
            b'&' => 2,
            b'<' => 3,
            b'>' => 4,
            _ => 0,
        };
        assert_eq!(table[b as usize], expected, "for byte {}", b);
    }
}

#[test]
fn escape_href_encodes_percent() {
    assert_eq!(href("100%"), "100%25");
    assert_eq!(href("%41"), "%2541");
    assert_eq!(href("%"), "%25");
}

#[test]
fn escape_href_keeps_the_safe_characters() {
    let safe = "abcxyzABCXYZ0123456789!#$()*+,-./:;=?@_";
    assert_eq!(href(safe), safe);
}

#[test]
fn escape_href_writes_entities_for_ampersand_and_apostrophe() {
    assert_eq!(href("a&b"), "a&amp;b");
    assert_eq!(href("it's"), "it&#x27;s");
}

#[test]
fn escape_href_percent_encodes_in_upper_case() {
    assert_eq!(href(" "), "%20");
    assert_eq!(href("\"<>"), "%22%3C%3E");
    assert_eq!(href("[\\]^`{|}~\u{7f}"), "%5B%5C%5D%5E%60%7B%7C%7D%7E%7F");
    assert_eq!(href("\u{0}\n"), "%00%0A");
}

#[test]
fn escape_href_encodes_each_byte_of_a_character() {
    assert_eq!(href("\u{e9}"), "%C3%A9");
    assert_eq!(href("a\u{4e2d}b"), "a%E4%B8%ADb");
    assert_eq!(href("\u{1f600}"), "%F0%9F%98%80");
}

#[test]
fn escape_href_of_the_empty_text_is_empty() {
    assert_eq!(href(""), "");
}

#[test]
fn href_safe_is_the_safe_set() {
    let safe = "abcdefghijklmnopqrstuvwxyzABCDEFGHIJKLMNOPQRSTUVWXYZ0123456789!#$()*+,-./:;=?@_";
    for b in 0..=255u8 {
        assert_eq!(href_safe(b), safe.as_bytes().contains(&b), "for byte {}", b);
    }
}

#[test]
fn escapes_agree_with_a_plain_rewriting_on_many_texts() {
    let alphabet = [
        "a", "Z", "0", "<", ">", "&", "\"", "'", "%", " ", "/", "?", "#", "~", "\u{e9}",
        "\u{4e2d}", "\u{1f600}", "\n", "_", "=",
    ];
    let safe = "abcdefghijklmnopqrstuvwxyzABCDEFGHIJKLMNOPQRSTUVWXYZ0123456789!#$()*+,-./:;=?@_";
    let mut seed: u64 = 0x1234_5678_9abc_def1;
    for _ in 0..3000 {
        let mut text = String::new();
        seed = seed.wrapping_mul(6364136223846793005).wrapping_add(1442695040888963407);
        let len = (seed >> 60) as usize;
        for _ in 0..len {
            seed = seed.wrapping_mul(6364136223846793005).wrapping_add(1442695040888963407);
            text.push_str(alphabet[(seed >> 33) as usize % alphabet.len()]);
        }
        let expected_html = text
            .replace('&', "&amp;")
            .replace('"', "&quot;")
            .replace('<', "&lt;")
            .replace('>', "&gt;");
        assert_eq!(html(&text), expected_html, "for {:?}", text);
        let mut expected_href = String::new();
        for b in text.bytes() {
            if safe.as_bytes().contains(&b) {
                expected_href.push(b as char);
            } else if b == b'&' {
                expected_href.push_str("&amp;");
            } else if b == b'\'' {
                expected_href.push_str("&#x27;");
            } else {
                expected_href.push_str(&format!("%{:02X}", b));
            }
        }
        assert_eq!(href(&text), expected_href, "for {:?}", text);
    }
}
