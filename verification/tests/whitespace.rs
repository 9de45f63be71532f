use flounder::whitespace::{join_words, split_word, trim, whitespace_scalar};

#[test]
fn whitespace_scalar_is_the_white_space_of_char() {
    for v in 0..=0x10ffffu32 {
        if let Some(c) = char::from_u32(v) {
            assert_eq!(whitespace_scalar(v), c.is_whitespace(), "for U+{:04X}", v);
        }
    }
}

#[test]
fn trim_is_the_trim_of_str() {
    let samples = [
        "",
        " ",
        "a",
        "  a  ",
        "\ta b\n",
        "\u{a0}x\u{3000}",
        "\u{2003}\u{2003}",
        " \u{e9} ",
        "a \u{1f600}",
        "\u{85}a\u{1680}b\u{2028}",
    ];
    for s in samples {
        assert_eq!(trim(s), s.trim(), "for {:?}", s);
    }
}

#[test]
fn split_word_gives_the_first_word_and_the_rest() {
    assert_eq!(split_word("  one two "), ("one", " two "));
    assert_eq!(split_word("one"), ("one", ""));
    assert_eq!(split_word("   "), ("", ""));
    assert_eq!(split_word(""), ("", ""));
    assert_eq!(split_word("\u{3000}\u{e9}\u{a0}x"), ("\u{e9}", "\u{a0}x"));
}

#[test]
fn join_words_is_split_whitespace_joined_by_spaces() {
    let samples = [
        "",
        "   ",
        "one",
        " one ",
        "one two",
        "  one \t two\n\nthree  ",
        "\u{e9}\u{3000}\u{4e2d}\u{a0}\u{1f600}",
    ];
    for s in samples {
        let expected = s.split_whitespace().collect::<Vec<&str>>().join(" ");
        assert_eq!(join_words(s), expected, "for {:?}", s);
    }
}

fn sample_texts() -> Vec<String> {
    let alphabet = [
        "a", "b", " ", "\t", "\n", "\r", "\u{a0}", "\u{e9}", "\u{3000}", "\u{2003}", "\u{1f600}",
        "#", "*", "=", ">", "`", ".", "/",
    ];
    let mut seed: u64 = 0x2545_f491_4f6c_dd1d;
    let mut texts = Vec::new();
    for _ in 0..3000 {
        let mut text = String::new();
        seed = seed.wrapping_mul(6364136223846793005).wrapping_add(1442695040888963407);
        let len = (seed >> 60) as usize;
        for _ in 0..len {
            seed = seed.wrapping_mul(6364136223846793005).wrapping_add(1442695040888963407);
            text.push_str(alphabet[(seed >> 33) as usize % alphabet.len()]);
        }
        texts.push(text);
    }
    texts
}

#[test]
fn trim_and_words_agree_with_str_on_many_texts() {
    for text in sample_texts() {
        assert_eq!(trim(&text), text.trim(), "for {:?}", text);
        let expected = text.split_whitespace().collect::<Vec<&str>>().join(" ");
        assert_eq!(join_words(&text), expected, "for {:?}", text);
        let (word, rest) = split_word(&text);
        let trimmed = text.trim_start();
        let end = trimmed.find(char::is_whitespace).unwrap_or(trimmed.len());
        assert_eq!(word, &trimmed[..end], "for {:?}", text);
        assert_eq!(rest, &trimmed[end..], "for {:?}", text);
    }
}
