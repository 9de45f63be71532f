use flounder::gemtext2html::{
    audio_name, choose_render_kind, classify_line, classify_target, convert, gemtext_to_html,
    href_with, image_name, proxy_href, push_link, render_end, render_line, resolve_href,
    scheme_allowed, ConvertConfig, LineKind, LinkTarget, ParseState, RenderKind,
};
use flounder::urls::ParsedUrl;

fn config(inline_media: bool) -> ConvertConfig {
    let mut config = ConvertConfig::standard();
    config.inline_media = inline_media;
    config
}

#[test]
fn test_basic() {
    assert_eq!(gemtext_to_html("hello world"), "hello world<br>\n")
}

#[test]
fn test_unsafe_html() {
    assert_eq!(
        gemtext_to_html("<b>hacked</b>"),
        "&lt;b&gt;hacked&lt;/b&gt;<br>\n"
    );
}

#[test]
fn test_whitespace() {
    assert_eq!(gemtext_to_html("\n\n\n"), "<br>\n<br>\n<br>\n")
}

#[test]
fn test_list() {
    assert_eq!(
        gemtext_to_html("hi\n* cool\n* vibes\nok"),
        "hi<br>\n<ul>\n<li>cool</li>\n<li>vibes</li>\n</ul>\nok<br>\n"
    )
}

#[test]
fn test_quote() {
    assert_eq!(
        gemtext_to_html("> stay cool\n-coolguy"),
        "<q> stay cool</q><br>\n-coolguy<br>\n"
    )
}

#[test]
fn test_headers() {
    assert_eq!(gemtext_to_html("#header"), "<h1>header</h1>\n");
    assert_eq!(gemtext_to_html("##header"), "<h2>header</h2>\n");
    assert_eq!(gemtext_to_html("### header"), "<h3>header</h3>\n");
    assert_eq!(gemtext_to_html("####header"), "<h3>#header</h3>\n");
}

#[test]
fn test_pre() {
    assert_eq!(
        gemtext_to_html("```\nhello world\n```"),
        "<pre>\nhello world\n</pre>\n"
    );
}

#[test]
fn test_pre_alt() {
    assert_eq!(
        gemtext_to_html("```alt\"\nhello world\n```"),
        "<pre alt=\"alt&quot;\">\nhello world\n</pre>\n"
    );
}

#[test]
fn test_hyperlink() {
    assert_eq!(
        gemtext_to_html("=> https://google.com"),
        "<a href=\"https://google.com/\">https://google.com</a><br>\n"
    )
}

#[test]
fn test_replace_image() {
    assert_eq!(
        gemtext_to_html("=> something.jpg cool pic"),
        "<img src=\"something.jpg\" alt=\"cool pic\"><br>\n"
    )
}

#[test]
fn test_replace_audio() {
    assert_eq!(
        gemtext_to_html("=> something.mp3 cool audio"),
        "<audio controls src=\"something.mp3\" alt=\"cool audio\"></audio><br>\n"
    )
}

#[test]
fn empty_document_converts_to_nothing() {
    assert_eq!(gemtext_to_html(""), "");
}

#[test]
fn list_open_at_the_end_is_closed() {
    assert_eq!(
        gemtext_to_html("* cool\n* vibes"),
        "<ul>\n<li>cool</li>\n<li>vibes</li>\n</ul>\n"
    );
}

#[test]
fn preformatted_block_open_at_the_end_is_closed() {
    assert_eq!(
        gemtext_to_html("```\nhello"),
        "<pre>\nhello\n</pre>\n"
    );
}

#[test]
fn list_and_block_open_at_the_end_are_both_closed() {
    assert_eq!(
        gemtext_to_html("* a\n```\nb"),
        "<ul>\n<li>a</li>\n<pre>\nb\n</ul>\n</pre>\n"
    );
}

#[test]
fn lines_end_at_line_feeds_and_lose_a_carriage_return_before_them() {
    assert_eq!(gemtext_to_html("a\r\nb\n"), "a<br>\nb<br>\n");
    assert_eq!(gemtext_to_html("a\rb"), "a\rb<br>\n");
    assert_eq!(gemtext_to_html("a\n\nb"), "a<br>\n<br>\nb<br>\n");
}

#[test]
fn lines_are_those_of_str_lines() {
    for text in ["", "\n", "a", "a\n", "a\nb", "a\r\n", "\r\n\r\n", "a\r", "a\n\r", "\ra\n\n"] {
        let mut expected = String::new();
        for line in text.lines() {
            expected.push_str(line);
            expected.push_str("<br>\n");
        }
        assert_eq!(gemtext_to_html(text), expected, "for {:?}", text);
    }
}

#[test]
fn preformatted_lines_are_escaped_and_not_classified() {
    assert_eq!(
        gemtext_to_html("```\n# <no> heading\n* item\n=> link\n```"),
        "<pre>\n# &lt;no&gt; heading\n* item\n=&gt; link\n</pre>\n"
    );
}

#[test]
fn text_after_the_closing_backticks_is_dropped() {
    assert_eq!(gemtext_to_html("```\n```rest"), "<pre>\n</pre>\n");
}

#[test]
fn list_items_and_headings_are_trimmed_and_quotes_are_not() {
    assert_eq!(gemtext_to_html("*   a b  "), "<ul>\n<li>a b</li>\n</ul>\n");
    assert_eq!(gemtext_to_html("#\u{3000} wide \u{a0}"), "<h1>wide</h1>\n");
    assert_eq!(gemtext_to_html(">  q  "), "<q>  q  </q><br>\n");
}

#[test]
fn star_without_a_space_is_plain_text() {
    assert_eq!(gemtext_to_html("*bold*"), "*bold*<br>\n");
}

#[test]
fn heading_level_counts_only_the_leading_marks() {
    assert_eq!(gemtext_to_html("#a#b"), "<h1>a#b</h1>\n");
    assert_eq!(gemtext_to_html("## a ## b"), "<h2>a ## b</h2>\n");
}

#[test]
fn link_label_is_the_words_after_the_target_joined_by_single_spaces() {
    assert_eq!(
        gemtext_to_html("=>   a.txt   two \t words  "),
        "<a href=\"a.txt\">two words</a><br>\n"
    );
}

#[test]
fn link_without_a_label_shows_its_target() {
    assert_eq!(
        gemtext_to_html("=> a<b>.txt"),
        "<a href=\"a%3Cb%3E.txt\">a&lt;b&gt;.txt</a><br>\n"
    );
}

#[test]
fn link_line_without_a_target_is_an_empty_anchor() {
    assert_eq!(gemtext_to_html("=>"), "<a href=\"\"></a><br>\n");
    assert_eq!(gemtext_to_html("=>   "), "<a href=\"\"></a><br>\n");
}

#[test]
fn short_relative_target_is_a_plain_link() {
    assert_eq!(gemtext_to_html("=> a"), "<a href=\"a\">a</a><br>\n");
}

#[test]
fn extension_is_matched_in_either_case() {
    assert_eq!(
        gemtext_to_html("=> PIC.JPG"),
        "<img src=\"PIC.JPG\" alt=\"PIC.JPG\"><br>\n"
    );
    assert_eq!(
        gemtext_to_html("=> a.webp x"),
        "<img src=\"a.webp\" alt=\"x\"><br>\n"
    );
    assert_eq!(
        gemtext_to_html("=> a.jpeg x"),
        "<img src=\"a.jpeg\" alt=\"x\"><br>\n"
    );
    assert_eq!(
        gemtext_to_html("=> \u{e9}.png x"),
        "<img src=\"%C3%A9.png\" alt=\"x\"><br>\n"
    );
    assert_eq!(
        gemtext_to_html("=> a.pn\u{e9} x"),
        "<a href=\"a.pn%C3%A9\">x</a><br>\n"
    );
}

#[test]
fn inline_media_disabled_renders_a_plain_anchor() {
    assert_eq!(
        convert("=> something.jpg cool pic", &config(false)),
        "<a href=\"something.jpg\">cool pic</a><br>\n"
    );
    assert_eq!(
        convert("=> something.mp3 cool audio", &config(false)),
        "<a href=\"something.mp3\">cool audio</a><br>\n"
    );
    assert_eq!(
        convert("=> something.jpg cool pic", &config(true)),
        "<img src=\"something.jpg\" alt=\"cool pic\"><br>\n"
    );
}

#[test]
fn absolute_image_url_is_never_inlined() {
    assert_eq!(
        gemtext_to_html("=> https://example.com/a.jpg pic"),
        "<a href=\"https://example.com/a.jpg\">pic</a><br>\n"
    );
}

#[test]
fn scheme_that_is_not_allowed_gives_an_empty_href_and_keeps_the_label() {
    assert_eq!(
        gemtext_to_html("=> javascript:alert(1) click me"),
        "<a href=\"\">click me</a><br>\n"
    );
    assert_eq!(
        gemtext_to_html("=> ftp://example.com/"),
        "<a href=\"\">ftp://example.com/</a><br>\n"
    );
}

#[test]
fn allowed_schemes_are_matched_exactly() {
    let mut only_http = ConvertConfig::standard();
    only_http.allowed_schemes = vec!["http".to_string()];
    assert_eq!(
        convert("=> https://example.com/ x", &only_http),
        "<a href=\"\">x</a><br>\n"
    );
    assert_eq!(
        convert("=> HTTP://example.com/ x", &only_http),
        "<a href=\"http://example.com/\">x</a><br>\n"
    );
}

#[test]
fn malformed_url_gives_an_empty_href() {
    assert_eq!(
        gemtext_to_html("=> http://[bad x"),
        "<a href=\"\">x</a><br>\n"
    );
}

#[test]
fn gemini_link_is_joined_to_the_proxy_by_host_and_then_by_path() {
    assert_eq!(
        gemtext_to_html("=> gemini://example.org/docs/a.gmi docs"),
        "<a href=\"https://portal.mozz.us/docs/a.gmi\">docs</a><br>\n"
    );
    let mut config = ConvertConfig::standard();
    config.proxy_base_url = "https://proxy.example/x/y".to_string();
    assert_eq!(
        convert("=> gemini://example.org docs", &config),
        "<a href=\"https://proxy.example/x/example.org\">docs</a><br>\n"
    );
}

#[test]
fn mail_link_passes_unchanged() {
    assert_eq!(
        gemtext_to_html("=> mailto:someone@example.com write"),
        "<a href=\"mailto:someone@example.com\">write</a><br>\n"
    );
}

#[test]
fn proxy_that_is_no_url_gives_an_empty_href() {
    let mut broken = ConvertConfig::standard();
    broken.proxy_base_url = "not a url".to_string();
    assert_eq!(
        convert("=> gemini://example.org/ x", &broken),
        "<a href=\"\">x</a><br>\n"
    );
}

#[test]
fn plain_lines_are_escaped_in_order() {
    assert_eq!(
        gemtext_to_html("a & b\n\"c\"\nd > e"),
        "a &amp; b<br>\n&quot;c&quot;<br>\nd &gt; e<br>\n"
    );
}

const OUTSIDE: ParseState = ParseState {
    in_preformatted: false,
    in_list: false,
};

const IN_BLOCK: ParseState = ParseState {
    in_preformatted: true,
    in_list: false,
};

#[test]
fn classify_line_follows_the_order_of_the_rules() {
    assert!(matches!(
        classify_line("```alt", &OUTSIDE),
        LineKind::PreformatToggle(Some("alt"))
    ));
    assert!(matches!(
        classify_line("```", &IN_BLOCK),
        LineKind::PreformatToggle(None)
    ));
    assert!(matches!(
        classify_line("* item", &IN_BLOCK),
        LineKind::PreformattedContent("* item")
    ));
    assert!(matches!(
        classify_line("* item ", &OUTSIDE),
        LineKind::ListItem("item")
    ));
    assert!(matches!(
        classify_line("#### four", &OUTSIDE),
        LineKind::Heading(3, "# four")
    ));
    assert!(matches!(
        classify_line(">q", &OUTSIDE),
        LineKind::Quote("q")
    ));
    match classify_line("=> t  l1 l2", &OUTSIDE) {
        LineKind::Link(target, label) => {
            assert_eq!(target, "t");
            assert_eq!(label, Some("l1 l2".to_string()));
        }
        _ => panic!("a link line"),
    }
    match classify_line("=> t", &OUTSIDE) {
        LineKind::Link(target, label) => {
            assert_eq!(target, "t");
            assert_eq!(label, None);
        }
        _ => panic!("a link line"),
    }
    assert!(matches!(
        classify_line("= > x", &OUTSIDE),
        LineKind::PlainText("= > x")
    ));
}

#[test]
fn classify_target_tells_relative_absolute_and_malformed_apart() {
    assert!(matches!(
        classify_target("dir/page.gmi"),
        LinkTarget::Relative("dir/page.gmi")
    ));
    match classify_target("gemini://Example.org/a?b") {
        LinkTarget::Absolute(url) => {
            assert_eq!(url.scheme, "gemini");
            assert_eq!(url.host, Some("Example.org".to_string()));
            assert_eq!(url.path, "/a");
            assert_eq!(url.href, "gemini://Example.org/a?b");
        }
        _ => panic!("an absolute URL"),
    }
    assert!(matches!(classify_target("http://[bad"), LinkTarget::Malformed));
}

fn absolute(scheme: &str, href: &str) -> LinkTarget<'static> {
    LinkTarget::Absolute(ParsedUrl {
        scheme: scheme.to_string(),
        host: Some("example.org".to_string()),
        path: "/".to_string(),
        href: href.to_string(),
    })
}

#[test]
fn href_with_follows_scheme_and_allow_list() {
    let config = ConvertConfig::standard();
    assert_eq!(
        href_with(&absolute("https", "https://example.org/"), "P", &config),
        "https://example.org/"
    );
    assert_eq!(
        href_with(&absolute("gemini", "gemini://example.org/"), "P", &config),
        "P"
    );
    assert_eq!(
        href_with(&absolute("ftp", "ftp://example.org/"), "P", &config),
        ""
    );
    assert_eq!(href_with(&LinkTarget::Malformed, "P", &config), "");
    assert_eq!(
        href_with(&LinkTarget::Relative("a b&c"), "P", &config),
        "a%20b&amp;c"
    );
}

#[test]
fn render_kind_is_inline_only_for_relative_targets() {
    assert_eq!(
        choose_render_kind(&LinkTarget::Relative("a.gif"), true),
        RenderKind::InlineImage
    );
    assert_eq!(
        choose_render_kind(&LinkTarget::Relative("a.mp3"), true),
        RenderKind::InlineAudio
    );
    assert_eq!(
        choose_render_kind(&LinkTarget::Relative("a.gif"), false),
        RenderKind::PlainLink
    );
    assert_eq!(
        choose_render_kind(&LinkTarget::Relative("a.gmi"), true),
        RenderKind::PlainLink
    );
    assert_eq!(
        choose_render_kind(&absolute("https", "https://example.org/a.gif"), true),
        RenderKind::PlainLink
    );
    assert_eq!(
        choose_render_kind(&LinkTarget::Malformed, true),
        RenderKind::PlainLink
    );
}

#[test]
fn push_link_writes_each_kind() {
    let mut out = String::from("x");
    push_link(&mut out, RenderKind::PlainLink, "h", "a<b");
    assert_eq!(out, "x<a href=\"h\">a&lt;b</a><br>\n");
    let mut out = String::new();
    push_link(&mut out, RenderKind::InlineImage, "h", "t");
    assert_eq!(out, "<img src=\"h\" alt=\"t\"><br>\n");
    let mut out = String::new();
    push_link(&mut out, RenderKind::InlineAudio, "h", "t");
    assert_eq!(out, "<audio controls src=\"h\" alt=\"t\"></audio><br>\n");
}

#[test]
fn render_line_moves_the_state() {
    let config = ConvertConfig::standard();
    let mut out = String::new();
    let mut state = ParseState {
        in_preformatted: false,
        in_list: false,
    };
    render_line(&mut out, &LineKind::ListItem("a"), &mut state, &config);
    assert_eq!(out, "<ul>\n<li>a</li>\n");
    assert!(state.in_list && !state.in_preformatted);
    render_line(&mut out, &LineKind::PreformatToggle(None), &mut state, &config);
    assert!(state.in_list && state.in_preformatted);
    render_line(&mut out, &LineKind::PreformatToggle(Some("x")), &mut state, &config);
    assert!(state.in_list && !state.in_preformatted);
    render_line(&mut out, &LineKind::PlainText("p"), &mut state, &config);
    assert!(!state.in_list && !state.in_preformatted);
    assert_eq!(out, "<ul>\n<li>a</li>\n<pre>\n</pre>\n</ul>\np<br>\n");
    render_end(&mut out, &state);
    assert_eq!(out, "<ul>\n<li>a</li>\n<pre>\n</pre>\n</ul>\np<br>\n");
}

#[test]
fn image_and_audio_names_are_told_by_the_last_four_characters() {
    for name in ["a.jpg", "a.JPG", "ajpeg", "a.png", "a.gif", "a.ico", "a.svg", "awebp", ".jpg", "\u{e9}.Png"] {
        assert!(image_name(name), "for {:?}", name);
        assert!(!audio_name(name), "for {:?}", name);
    }
    for name in ["a.mp3", "A.MP3", ".mp3"] {
        assert!(audio_name(name), "for {:?}", name);
        assert!(!image_name(name), "for {:?}", name);
    }
    for name in ["", "jpg", "a.jpgx", "a.jp\u{e9}", "a.gmi", "mp3", "a.jpg "] {
        assert!(!image_name(name), "for {:?}", name);
        assert!(!audio_name(name), "for {:?}", name);
    }
}

#[test]
fn scheme_allowed_looks_the_scheme_up() {
    let config = ConvertConfig::standard();
    for scheme in ["https", "http", "gemini", "gopher", "mailto"] {
        assert!(scheme_allowed(&config, scheme));
    }
    for scheme in ["", "ftp", "HTTP", "javascript", "http "] {
        assert!(!scheme_allowed(&config, scheme));
    }
}

#[test]
fn proxy_href_is_empty_without_a_host() {
    let no_host = ParsedUrl {
        scheme: "gemini".to_string(),
        host: None,
        path: "/a".to_string(),
        href: "gemini:/a".to_string(),
    };
    assert_eq!(proxy_href("https://portal.mozz.us/gemini/", &no_host), "");
    let with_host = ParsedUrl {
        scheme: "gemini".to_string(),
        host: Some("example.org".to_string()),
        path: "a/b".to_string(),
        href: "gemini://example.org/a/b".to_string(),
    };
    assert_eq!(
        proxy_href("https://portal.mozz.us/gemini/", &with_host),
        "https://portal.mozz.us/gemini/a/b"
    );
}

#[test]
fn resolve_href_goes_through_the_proxy_for_gemini_only() {
    let config = ConvertConfig::standard();
    assert_eq!(
        resolve_href(&classify_target("gemini://example.org/x"), &config),
        "https://portal.mozz.us/x"
    );
    assert_eq!(
        resolve_href(&classify_target("gopher://example.org/x"), &config),
        "gopher://example.org/x"
    );
    assert_eq!(resolve_href(&classify_target("x y"), &config), "x%20y");
}
