//! Conversion of gemtext to HTML: a document is read line by line, each line
//! is classified by the characters it starts with, and what it renders to is
//! appended to the output.

use crate::escape::{
    escape_href, escape_html, href_escaped, html_escaped, is_href_text,
    lemma_href_escaped_is_href_text,
};
use crate::text::{
    ends_with_ascii_lowered, ends_with_lowered, lines, same_text, split_line, strip_prefix,
};
use crate::urls::{join_url, parse_url, url_join, url_parse, ParseFailure, ParsedUrl, UrlParts};
use crate::whitespace::{
    join_words, joined, lemma_trim_start_len, lemma_word_end, split_word, trim, trim_start,
    trimmed, words,
};
use vstd::prelude::*;
use vstd::string::*;

verus! {

/// What a conversion remembers from one line to the next.
#[derive(Clone, Copy, PartialEq, Eq, Structural, Debug)]
pub struct ParseState {
    /// A preformatted block is open.
    pub in_preformatted: bool,
    /// A list is open.
    pub in_list: bool,
}

/// How a link is shown.
#[derive(Clone, Copy, PartialEq, Eq, Structural, Debug)]
pub enum RenderKind {
    /// An anchor.
    PlainLink,
    /// An image in the page.
    InlineImage,
    /// An audio player in the page.
    InlineAudio,
}

/// What a conversion is configured with.
pub struct ConvertConfig {
    /// The schemes that a link to an absolute URL may have.
    pub allowed_schemes: Vec<String>,
    /// The URL under which `gemini` links are reached through a proxy.
    pub proxy_base_url: String,
    /// Whether relative links to images and audio files are shown in the page.
    pub inline_media: bool,
}

/// A configuration, as texts.
pub struct ConvertConfigView {
    pub allowed_schemes: Seq<Seq<char>>,
    pub proxy_base_url: Seq<char>,
    pub inline_media: bool,
}

impl View for ConvertConfig {
    type V = ConvertConfigView;

    open spec fn view(&self) -> ConvertConfigView {
        ConvertConfigView {
            allowed_schemes: self.allowed_schemes.deep_view(),
            proxy_base_url: self.proxy_base_url@,
            inline_media: self.inline_media,
        }
    }
}

/// What a line is, as texts.
pub enum LineKindView {
    PreformatToggle(Option<Seq<char>>),
    PreformattedContent(Seq<char>),
    ListItem(Seq<char>),
    Heading(u8, Seq<char>),
    Quote(Seq<char>),
    Link(Seq<char>, Option<Seq<char>>),
    PlainText(Seq<char>),
}

/// What a line is.
pub enum LineKind<'a> {
    /// Three backticks: a preformatted block starts or ends. What follows
    /// the backticks, if anything does, describes a block that starts.
    PreformatToggle(Option<&'a str>),
    /// A line inside a preformatted block, as it stands.
    PreformattedContent(&'a str),
    /// `* ` and the trimmed text of a list item.
    ListItem(&'a str),
    /// One to three `#`, as the level, and the trimmed text of a heading.
    Heading(u8, &'a str),
    /// `>` and the text of a quotation.
    Quote(&'a str),
    /// `=>`, the target of a link and, where words follow it, its label.
    Link(&'a str, Option<String>),
    /// Any other line.
    PlainText(&'a str),
}

impl<'a> View for LineKind<'a> {
    type V = LineKindView;

    open spec fn view(&self) -> LineKindView {
        match *self {
            LineKind::PreformatToggle(alt) => LineKindView::PreformatToggle(
                match alt {
                    Some(a) => Some(a@),
                    None => None,
                },
            ),
            LineKind::PreformattedContent(t) => LineKindView::PreformattedContent(t@),
            LineKind::ListItem(t) => LineKindView::ListItem(t@),
            LineKind::Heading(level, t) => LineKindView::Heading(level, t@),
            LineKind::Quote(t) => LineKindView::Quote(t@),
            LineKind::Link(target, label) => LineKindView::Link(
                target@,
                match label {
                    Some(l) => Some(l@),
                    None => None,
                },
            ),
            LineKind::PlainText(t) => LineKindView::PlainText(t@),
        }
    }
}

/// Where a link leads, as texts.
pub enum LinkTargetView {
    Relative(Seq<char>),
    Absolute(UrlParts),
    Malformed,
}

/// Where a link leads.
pub enum LinkTarget<'a> {
    /// A reference without a scheme, as it was written.
    Relative(&'a str),
    /// An absolute URL.
    Absolute(ParsedUrl),
    /// A text with a scheme that is no URL.
    Malformed,
}

impl<'a> View for LinkTarget<'a> {
    type V = LinkTargetView;

    open spec fn view(&self) -> LinkTargetView {
        match *self {
            LinkTarget::Relative(raw) => LinkTargetView::Relative(raw@),
            LinkTarget::Absolute(u) => LinkTargetView::Absolute(u@),
            LinkTarget::Malformed => LinkTargetView::Malformed,
        }
    }
}

/// A piece of the output.
pub enum Fragment {
    /// The start of a preformatted block, with its description.
    PreOpen(Option<Seq<char>>),
    /// The end of a preformatted block.
    PreClose,
    /// A line of a preformatted block.
    PreLine(Seq<char>),
    /// The start of a list.
    ListOpen,
    /// The end of a list.
    ListClose,
    /// An item of a list.
    ListItem(Seq<char>),
    /// A heading of a level.
    Heading(u8, Seq<char>),
    /// A quotation.
    Quote(Seq<char>),
    /// A link: how it is shown, the value of its `href` or `src` attribute
    /// as it is written out, and its text.
    Link(RenderKind, Seq<char>, Seq<char>),
    /// A line of plain text.
    Plain(Seq<char>),
}

/// The level of a heading line: the number of `#` it starts with, but 3 where
/// it starts with more.
pub open spec fn heading_level(line: Seq<char>) -> u8 {
    if "###"@.is_prefix_of(line) {
        3
    } else if "##"@.is_prefix_of(line) {
        2
    } else {
        1
    }
}

/// The target of a link line whose text after `=>` is `rest`: its first word.
pub open spec fn link_line_target(rest: Seq<char>) -> Seq<char> {
    if words(rest).len() > 0 {
        words(rest)[0]
    } else {
        Seq::<char>::empty()
    }
}

/// The label of a link line whose text after `=>` is `rest`: the words after
/// the first, with one space between each two.
pub open spec fn link_line_label(rest: Seq<char>) -> Option<Seq<char>> {
    if words(rest).len() > 1 {
        Some(joined(words(rest).skip(1)))
    } else {
        None
    }
}

/// What a line is in a state. The first of these that applies decides: three
/// backticks at the start; an open preformatted block; `* `, `#`, `>` or `=>`
/// at the start.
pub open spec fn classify(line: Seq<char>, state: ParseState) -> LineKindView {
    if "```"@.is_prefix_of(line) {
        LineKindView::PreformatToggle(
            if line.len() > 3 {
                Some(line.skip(3))
            } else {
                None
            },
        )
    } else if state.in_preformatted {
        LineKindView::PreformattedContent(line)
    } else if "* "@.is_prefix_of(line) {
        LineKindView::ListItem(trimmed(line.skip(2)))
    } else if "#"@.is_prefix_of(line) {
        LineKindView::Heading(heading_level(line), trimmed(line.skip(heading_level(line) as int)))
    } else if ">"@.is_prefix_of(line) {
        LineKindView::Quote(line.skip(1))
    } else if "=>"@.is_prefix_of(line) {
        LineKindView::Link(link_line_target(line.skip(2)), link_line_label(line.skip(2)))
    } else {
        LineKindView::PlainText(line)
    }
}

/// Where a link with the target `target` leads.
pub open spec fn link_target(target: Seq<char>) -> LinkTargetView {
    match url_parse(target) {
        Ok(u) => LinkTargetView::Absolute(u),
        Err(ParseFailure::RelativeWithoutBase) => LinkTargetView::Relative(target),
        Err(ParseFailure::Malformed) => LinkTargetView::Malformed,
    }
}

/// Whether the last four characters of `raw`, in lower case, name an image.
pub open spec fn is_image_name(raw: Seq<char>) -> bool {
    ||| ends_with_lowered(raw, ".jpg"@)
    ||| ends_with_lowered(raw, "jpeg"@)
    ||| ends_with_lowered(raw, ".png"@)
    ||| ends_with_lowered(raw, ".gif"@)
    ||| ends_with_lowered(raw, ".ico"@)
    ||| ends_with_lowered(raw, ".svg"@)
    ||| ends_with_lowered(raw, "webp"@)
}

/// Whether the last four characters of `raw`, in lower case, name an audio file.
pub open spec fn is_audio_name(raw: Seq<char>) -> bool {
    ends_with_lowered(raw, ".mp3"@)
}

/// How a link is shown: in the page only where that is enabled, the target
/// is relative and its name is that of an image or an audio file.
pub open spec fn render_kind(target: LinkTargetView, inline_media: bool) -> RenderKind {
    match target {
        LinkTargetView::Relative(raw) => if inline_media && is_image_name(raw) {
            RenderKind::InlineImage
        } else if inline_media && is_audio_name(raw) {
            RenderKind::InlineAudio
        } else {
            RenderKind::PlainLink
        },
        _ => RenderKind::PlainLink,
    }
}

/// Whether links to absolute URLs of the scheme `scheme` go through the proxy.
pub open spec fn is_proxied_scheme(scheme: Seq<char>) -> bool {
    scheme == "gemini"@
}

/// The URL that leads to `url` through the proxy at `proxy`: `proxy` joined
/// with the host of `url`, and that joined with its path. Empty where `url`
/// has no host or a join fails.
pub open spec fn proxied_href(proxy: Seq<char>, url: UrlParts) -> Seq<char> {
    match url.host {
        None => Seq::<char>::empty(),
        Some(host) => match url_join(proxy, host) {
            None => Seq::<char>::empty(),
            Some(with_host) => match url_join(with_host, url.path) {
                None => Seq::<char>::empty(),
                Some(with_path) => with_path,
            },
        },
    }
}

/// The value of the `href` or `src` attribute of a link, where `proxied` is
/// what leads to its target through the proxy: a relative target is escaped; an
/// absolute URL stands as it is, or as `proxied` for the proxied scheme, and
/// is left out where its scheme is not allowed; so is a malformed target.
pub open spec fn href_given(
    target: LinkTargetView,
    proxied: Seq<char>,
    config: ConvertConfigView,
) -> Seq<char> {
    match target {
        LinkTargetView::Relative(raw) => href_escaped(raw),
        LinkTargetView::Absolute(url) => if !config.allowed_schemes.contains(url.scheme) {
            Seq::<char>::empty()
        } else if is_proxied_scheme(url.scheme) {
            proxied
        } else {
            url.href
        },
        LinkTargetView::Malformed => Seq::<char>::empty(),
    }
}

/// The value of the `href` or `src` attribute of a link.
pub open spec fn link_href(target: LinkTargetView, config: ConvertConfigView) -> Seq<char> {
    match target {
        LinkTargetView::Absolute(url) => href_given(
            target,
            proxied_href(config.proxy_base_url, url),
            config,
        ),
        _ => href_given(target, Seq::<char>::empty(), config),
    }
}

/// The text of a link: its label, or its target as it was written where it
/// has no label.
pub open spec fn link_text(target: Seq<char>, label: Option<Seq<char>>) -> Seq<char> {
    match label {
        Some(l) => l,
        None => target,
    }
}

/// The tag that starts a heading of a level.
pub open spec fn heading_open(level: u8) -> Seq<char> {
    if level == 1 {
        "<h1>"@
    } else if level == 2 {
        "<h2>"@
    } else {
        "<h3>"@
    }
}

/// The tag that ends a heading of a level, and the line.
pub open spec fn heading_close(level: u8) -> Seq<char> {
    if level == 1 {
        "</h1>\n"@
    } else if level == 2 {
        "</h2>\n"@
    } else {
        "</h3>\n"@
    }
}

/// The HTML of a piece of the output.
pub open spec fn fragment_html(f: Fragment) -> Seq<char> {
    match f {
        Fragment::PreOpen(Some(alt)) => "<pre alt=\""@ + html_escaped(alt) + "\">\n"@,
        Fragment::PreOpen(None) => "<pre>\n"@,
        Fragment::PreClose => "</pre>\n"@,
        Fragment::PreLine(text) => html_escaped(text) + "\n"@,
        Fragment::ListOpen => "<ul>\n"@,
        Fragment::ListClose => "</ul>\n"@,
        Fragment::ListItem(text) => "<li>"@ + html_escaped(text) + "</li>\n"@,
        Fragment::Heading(level, text) => heading_open(level) + html_escaped(text) + heading_close(
            level,
        ),
        Fragment::Quote(text) => "<q>"@ + html_escaped(text) + "</q><br>\n"@,
        Fragment::Link(RenderKind::InlineImage, href, text) => "<img src=\""@ + href
            + "\" alt=\""@ + html_escaped(text) + "\">"@ + "<br>\n"@,
        Fragment::Link(RenderKind::InlineAudio, href, text) => "<audio controls src=\""@ + href
            + "\" alt=\""@ + html_escaped(text) + "\">"@ + "</audio>"@ + "<br>\n"@,
        Fragment::Link(RenderKind::PlainLink, href, text) => "<a href=\""@ + href + "\">"@
            + html_escaped(text) + "</a>"@ + "<br>\n"@,
        Fragment::Plain(text) => html_escaped(text) + "<br>\n"@,
    }
}

/// The HTML of pieces of the output, one after the other.
pub open spec fn fragments_html(fs: Seq<Fragment>) -> Seq<char>
    decreases fs.len(),
{
    if fs.len() == 0 {
        Seq::<char>::empty()
    } else {
        fragment_html(fs[0]) + fragments_html(fs.drop_first())
    }
}

/// The piece that a link line with a target and a label renders to.
pub open spec fn link_fragment(
    target: Seq<char>,
    label: Option<Seq<char>>,
    config: ConvertConfigView,
) -> Fragment {
    Fragment::Link(
        render_kind(link_target(target), config.inline_media),
        link_href(link_target(target), config),
        link_text(target, label),
    )
}

/// The pieces that a line renders to in a state: a toggle starts or ends a
/// preformatted block; the first item of a list starts the list; a line that
/// is neither a toggle, nor inside a preformatted block, nor an item ends an
/// open list before it is rendered itself.
pub open spec fn line_fragments(
    line: LineKindView,
    state: ParseState,
    config: ConvertConfigView,
) -> Seq<Fragment> {
    let close = if state.in_list {
        seq![Fragment::ListClose]
    } else {
        Seq::<Fragment>::empty()
    };
    match line {
        LineKindView::PreformatToggle(alt) => if state.in_preformatted {
            seq![Fragment::PreClose]
        } else {
            seq![Fragment::PreOpen(alt)]
        },
        LineKindView::PreformattedContent(text) => seq![Fragment::PreLine(text)],
        LineKindView::ListItem(text) => if state.in_list {
            seq![Fragment::ListItem(text)]
        } else {
            seq![Fragment::ListOpen, Fragment::ListItem(text)]
        },
        LineKindView::Heading(level, text) => close + seq![Fragment::Heading(level, text)],
        LineKindView::Quote(text) => close + seq![Fragment::Quote(text)],
        LineKindView::Link(target, label) => close + seq![link_fragment(target, label, config)],
        LineKindView::PlainText(text) => close + seq![Fragment::Plain(text)],
    }
}

/// The state after a line.
pub open spec fn next_state(line: LineKindView, state: ParseState) -> ParseState {
    match line {
        LineKindView::PreformatToggle(_) => ParseState {
            in_preformatted: !state.in_preformatted,
            in_list: state.in_list,
        },
        LineKindView::PreformattedContent(_) => state,
        LineKindView::ListItem(_) => ParseState {
            in_preformatted: state.in_preformatted,
            in_list: true,
        },
        _ => ParseState { in_preformatted: state.in_preformatted, in_list: false },
    }
}

/// The pieces that end a document in a state: whatever is still open is closed.
pub open spec fn end_fragments(state: ParseState) -> Seq<Fragment> {
    (if state.in_list {
        seq![Fragment::ListClose]
    } else {
        Seq::<Fragment>::empty()
    }) + (if state.in_preformatted {
        seq![Fragment::PreClose]
    } else {
        Seq::<Fragment>::empty()
    })
}

/// The pieces that lines render to, from a state on, to the end of the document.
pub open spec fn lines_fragments(
    ls: Seq<Seq<char>>,
    state: ParseState,
    config: ConvertConfigView,
) -> Seq<Fragment>
    decreases ls.len(),
{
    if ls.len() == 0 {
        end_fragments(state)
    } else {
        let line = classify(ls[0], state);
        line_fragments(line, state, config) + lines_fragments(
            ls.drop_first(),
            next_state(line, state),
            config,
        )
    }
}

/// The state in which a document starts.
pub open spec fn initial_state() -> ParseState {
    ParseState { in_preformatted: false, in_list: false }
}

/// The pieces that a document renders to.
pub open spec fn document_fragments(text: Seq<char>, config: ConvertConfigView) -> Seq<Fragment> {
    lines_fragments(lines(text), initial_state(), config)
}

/// The HTML that a document converts to.
pub open spec fn converted(text: Seq<char>, config: ConvertConfigView) -> Seq<char> {
    fragments_html(document_fragments(text, config))
}

/// The configuration of `gemtext_to_html`.
pub open spec fn standard_config() -> ConvertConfigView {
    ConvertConfigView {
        allowed_schemes: seq!["https"@, "http"@, "gemini"@, "gopher"@, "mailto"@],
        proxy_base_url: "https://portal.mozz.us/gemini/"@,
        inline_media: true,
    }
}

/// The HTML of pieces goes through concatenation.
pub proof fn lemma_fragments_html_concat(a: Seq<Fragment>, b: Seq<Fragment>)
    ensures
        fragments_html(a + b) == fragments_html(a) + fragments_html(b),
    decreases a.len(),
{
    if a.len() == 0 {
        assert(a + b =~= b);
        assert(fragments_html(a) + fragments_html(b) =~= fragments_html(b));
    } else {
        lemma_fragments_html_concat(a.drop_first(), b);
        assert((a + b).drop_first() =~= a.drop_first() + b);
        assert(fragments_html(a + b) =~= fragments_html(a) + fragments_html(b));
    }
}

/// The HTML of one piece alone.
pub proof fn lemma_fragments_html_one(f: Fragment)
    ensures
        fragments_html(seq![f]) == fragment_html(f),
{
    let s = seq![f];
    assert(s.drop_first() =~= Seq::<Fragment>::empty());
    assert(fragment_html(f) + fragments_html(s.drop_first()) =~= fragment_html(f));
}

/// Classifies a line in a state.
pub fn classify_line<'a>(line: &'a str, state: &ParseState) -> (kind: LineKind<'a>)
    ensures
        kind@ == classify(line@, *state),
{
    proof {
        reveal_strlit("```");
        reveal_strlit("* ");
        reveal_strlit("#");
        reveal_strlit("##");
        reveal_strlit("###");
        reveal_strlit(">");
        reveal_strlit("=>");
    }
    match strip_prefix(line, "```") {
        Some(alt) => {
            if alt.is_empty() {
                return LineKind::PreformatToggle(None);
            } else {
                return LineKind::PreformatToggle(Some(alt));
            }
        },
        None => {},
    }
    if state.in_preformatted {
        return LineKind::PreformattedContent(line);
    }
    match strip_prefix(line, "* ") {
        Some(rest) => {
            return LineKind::ListItem(trim(rest));
        },
        None => {},
    }
    match strip_prefix(line, "###") {
        Some(rest) => {
            proof {
                assert("#"@.is_prefix_of(line@)) by {
                    assert("#"@ =~= line@.subrange(0, 1));
                }
            }
            return LineKind::Heading(3, trim(rest));
        },
        None => {},
    }
    match strip_prefix(line, "##") {
        Some(rest) => {
            proof {
                assert("#"@.is_prefix_of(line@)) by {
                    assert("#"@ =~= line@.subrange(0, 1));
                }
            }
            return LineKind::Heading(2, trim(rest));
        },
        None => {},
    }
    match strip_prefix(line, "#") {
        Some(rest) => {
            return LineKind::Heading(1, trim(rest));
        },
        None => {},
    }
    match strip_prefix(line, ">") {
        Some(rest) => {
            return LineKind::Quote(rest);
        },
        None => {},
    }
    match strip_prefix(line, "=>") {
        Some(rest) => {
            let (target, more) = split_word(rest);
            let (second, _) = split_word(more);
            proof {
                lemma_trim_start_len(rest@);
                let t = trim_start(rest@);
                lemma_word_end(t);
                let ws = words(rest@);
                if t.len() > 0 {
                    assert(ws =~= seq![target@] + words(more@));
                    assert(ws[0] == target@);
                    assert(ws.skip(1) =~= words(more@));
                    assert(ws.len() > 1 <==> words(more@).len() > 0);
                } else {
                    assert(ws.len() == 0);
                    assert(target@ =~= Seq::<char>::empty());
                    assert(more@.len() == 0);
                    assert(trim_start(more@).len() == 0);
                }
                assert(second@.len() == 0 <==> words(more@).len() == 0);
            }
            let label = if second.is_empty() {
                None
            } else {
                Some(join_words(more))
            };
            return LineKind::Link(target, label);
        },
        None => {},
    }
    LineKind::PlainText(line)
}

/// Tests whether `scheme` is one of the allowed schemes of `config`.
pub fn scheme_allowed(config: &ConvertConfig, scheme: &str) -> (r: bool)
    ensures
        r == config@.allowed_schemes.contains(scheme@),
{
    let mut i: usize = 0;
    while i < config.allowed_schemes.len()
        invariant
            i <= config.allowed_schemes@.len(),
            forall|j: int| 0 <= j < i ==> config@.allowed_schemes[j] != scheme@,
        decreases config.allowed_schemes@.len() - i,
    {
        if same_text(config.allowed_schemes[i].as_str(), scheme) {
            proof {
                assert(config@.allowed_schemes[i as int] == scheme@);
            }
            return true;
        }
        i = i + 1;
    }
    false
}

/// Finds where a link with the target `target` leads.
pub fn classify_target<'a>(target: &'a str) -> (r: LinkTarget<'a>)
    ensures
        r@ == link_target(target@),
{
    match parse_url(target) {
        Ok(url) => LinkTarget::Absolute(url),
        Err(ParseFailure::RelativeWithoutBase) => LinkTarget::Relative(target),
        Err(ParseFailure::Malformed) => LinkTarget::Malformed,
    }
}

/// Tests whether the last four characters of `raw`, in lower case, name an image.
pub fn image_name(raw: &str) -> (r: bool)
    ensures
        r == is_image_name(raw@),
{
    proof {
        reveal_strlit(".jpg");
        reveal_strlit("jpeg");
        reveal_strlit(".png");
        reveal_strlit(".gif");
        reveal_strlit(".ico");
        reveal_strlit(".svg");
        reveal_strlit("webp");
    }
    ends_with_ascii_lowered(raw, ".jpg") || ends_with_ascii_lowered(raw, "jpeg")
        || ends_with_ascii_lowered(raw, ".png") || ends_with_ascii_lowered(raw, ".gif")
        || ends_with_ascii_lowered(raw, ".ico") || ends_with_ascii_lowered(raw, ".svg")
        || ends_with_ascii_lowered(raw, "webp")
}

/// Tests whether the last four characters of `raw`, in lower case, name an
/// audio file.
pub fn audio_name(raw: &str) -> (r: bool)
    ensures
        r == is_audio_name(raw@),
{
    proof {
        reveal_strlit(".mp3");
    }
    ends_with_ascii_lowered(raw, ".mp3")
}

/// Chooses how a link is shown.
pub fn choose_render_kind(target: &LinkTarget, inline_media: bool) -> (r: RenderKind)
    ensures
        r == render_kind(target@, inline_media),
{
    match target {
        LinkTarget::Relative(raw) => {
            if inline_media && image_name(raw) {
                RenderKind::InlineImage
            } else if inline_media && audio_name(raw) {
                RenderKind::InlineAudio
            } else {
                RenderKind::PlainLink
            }
        },
        _ => RenderKind::PlainLink,
    }
}

/// The URL that leads to `url` through the proxy at `proxy`; empty where
/// `url` has no host or a join fails.
pub fn proxy_href(proxy: &str, url: &ParsedUrl) -> (r: String)
    ensures
        r@ == proxied_href(proxy@, url@),
{
    match &url.host {
        None => String::new(),
        Some(host) => match join_url(proxy, host.as_str()) {
            None => String::new(),
            Some(with_host) => match join_url(with_host.as_str(), url.path.as_str()) {
                None => String::new(),
                Some(with_path) => with_path,
            },
        },
    }
}

/// The value of the `href` or `src` attribute of a link, where `proxied` is
/// what leads to its target through the proxy.
pub fn href_with(target: &LinkTarget, proxied: &str, config: &ConvertConfig) -> (r: String)
    ensures
        r@ == href_given(target@, proxied@, config@),
{
    let mut href = String::new();
    proof {
        reveal_strlit("gemini");
    }
    match target {
        LinkTarget::Relative(raw) => {
            escape_href(&mut href, raw);
            assert(href@ =~= href_escaped(raw@));
        },
        LinkTarget::Absolute(url) => {
            if scheme_allowed(config, url.scheme.as_str()) {
                if same_text(url.scheme.as_str(), "gemini") {
                    href.append(proxied);
                    assert(href@ =~= proxied@);
                } else {
                    href.append(url.href.as_str());
                    assert(href@ =~= url.href@);
                }
            }
        },
        LinkTarget::Malformed => {},
    }
    href
}

/// The value of the `href` or `src` attribute of a link.
pub fn resolve_href(target: &LinkTarget, config: &ConvertConfig) -> (r: String)
    ensures
        r@ == link_href(target@, config@),
{
    match target {
        LinkTarget::Absolute(url) => {
            let proxied = if scheme_allowed(config, url.scheme.as_str()) && same_text(
                url.scheme.as_str(),
                "gemini",
            ) {
                proxy_href(config.proxy_base_url.as_str(), url)
            } else {
                String::new()
            };
            let href = href_with(target, proxied.as_str(), config);
            href
        },
        _ => href_with(target, "", config),
    }
}

/// Appends a link: an image, an audio player or an anchor, and a line break.
pub fn push_link(out: &mut String, kind: RenderKind, href: &str, text: &str)
    ensures
        final(out)@ == old(out)@ + fragment_html(Fragment::Link(kind, href@, text@)),
{
    match kind {
        RenderKind::InlineImage => {
            out.append("<img src=\"");
            out.append(href);
            out.append("\" alt=\"");
            escape_html(out, text);
            out.append("\">");
        },
        RenderKind::InlineAudio => {
            out.append("<audio controls src=\"");
            out.append(href);
            out.append("\" alt=\"");
            escape_html(out, text);
            out.append("\">");
            out.append("</audio>");
        },
        RenderKind::PlainLink => {
            out.append("<a href=\"");
            out.append(href);
            out.append("\">");
            escape_html(out, text);
            out.append("</a>");
        },
    }
    out.append("<br>\n");
    proof {
        assert(out@ =~= old(out)@ + fragment_html(Fragment::Link(kind, href@, text@)));
    }
}

/// Appends the tag that ends an open list, and marks the list as ended.
fn close_list(out: &mut String, state: &mut ParseState)
    ensures
        final(out)@ == old(out)@ + fragments_html(
            if old(state).in_list {
                seq![Fragment::ListClose]
            } else {
                Seq::<Fragment>::empty()
            },
        ),
        *final(state) == (ParseState {
            in_preformatted: old(state).in_preformatted,
            in_list: false,
        }),
{
    if state.in_list {
        out.append("</ul>\n");
        proof {
            lemma_fragments_html_one(Fragment::ListClose);
        }
    } else {
        proof {
            assert(out@ + fragments_html(Seq::<Fragment>::empty()) =~= out@);
        }
    }
    state.in_list = false;
}

/// Appends what a line renders to in a state, and moves the state on.
pub fn render_line(
    out: &mut String,
    kind: &LineKind,
    state: &mut ParseState,
    config: &ConvertConfig,
)
    ensures
        final(out)@ == old(out)@ + fragments_html(line_fragments(kind@, *old(state), config@)),
        *final(state) == next_state(kind@, *old(state)),
{
    let ghost fs = line_fragments(kind@, *old(state), config@);
    let ghost close = if old(state).in_list {
        seq![Fragment::ListClose]
    } else {
        Seq::<Fragment>::empty()
    };
    match kind {
        LineKind::PreformatToggle(alt) => {
            if state.in_preformatted {
                state.in_preformatted = false;
                out.append("</pre>\n");
                proof {
                    lemma_fragments_html_one(Fragment::PreClose);
                }
            } else {
                state.in_preformatted = true;
                match alt {
                    Some(a) => {
                        out.append("<pre alt=\"");
                        escape_html(out, a);
                        out.append("\">\n");
                        proof {
                            lemma_fragments_html_one(Fragment::PreOpen(Some(a@)));
                            assert(out@ =~= old(out)@ + fragment_html(
                                Fragment::PreOpen(Some(a@)),
                            ));
                        }
                    },
                    None => {
                        out.append("<pre>\n");
                        proof {
                            lemma_fragments_html_one(Fragment::PreOpen(None));
                        }
                    },
                }
            }
        },
        LineKind::PreformattedContent(text) => {
            escape_html(out, text);
            out.append("\n");
            proof {
                lemma_fragments_html_one(Fragment::PreLine(text@));
                assert(out@ =~= old(out)@ + fragment_html(Fragment::PreLine(text@)));
            }
        },
        LineKind::ListItem(text) => {
            if !state.in_list {
                out.append("<ul>\n");
                state.in_list = true;
            }
            out.append("<li>");
            escape_html(out, text);
            out.append("</li>\n");
            proof {
                let item = Fragment::ListItem(text@);
                lemma_fragments_html_one(item);
                lemma_fragments_html_one(Fragment::ListOpen);
                lemma_fragments_html_concat(seq![Fragment::ListOpen], seq![item]);
                assert(seq![Fragment::ListOpen, item] =~= seq![Fragment::ListOpen] + seq![item]);
                assert(out@ =~= old(out)@ + fragments_html(fs));
            }
        },
        LineKind::Heading(level, text) => {
            close_list(out, state);
            let (open, end) = if *level == 1 {
                ("<h1>", "</h1>\n")
            } else if *level == 2 {
                ("<h2>", "</h2>\n")
            } else {
                ("<h3>", "</h3>\n")
            };
            out.append(open);
            escape_html(out, text);
            out.append(end);
            proof {
                let f = Fragment::Heading(*level, text@);
                lemma_fragments_html_one(f);
                lemma_fragments_html_concat(close, seq![f]);
                assert(out@ =~= old(out)@ + fragments_html(fs));
            }
        },
        LineKind::Quote(text) => {
            close_list(out, state);
            out.append("<q>");
            escape_html(out, text);
            out.append("</q><br>\n");
            proof {
                let f = Fragment::Quote(text@);
                lemma_fragments_html_one(f);
                lemma_fragments_html_concat(close, seq![f]);
                assert(out@ =~= old(out)@ + fragments_html(fs));
            }
        },
        LineKind::Link(target, label) => {
            close_list(out, state);
            let parsed = classify_target(target);
            let shown = choose_render_kind(&parsed, config.inline_media);
            let href = resolve_href(&parsed, config);
            let text: &str = match label {
                Some(l) => l.as_str(),
                None => target,
            };
            push_link(out, shown, href.as_str(), text);
            proof {
                let f = link_fragment(kind@->Link_0, kind@->Link_1, config@);
                lemma_fragments_html_one(f);
                lemma_fragments_html_concat(close, seq![f]);
                assert(out@ =~= old(out)@ + fragments_html(fs));
            }
        },
        LineKind::PlainText(text) => {
            close_list(out, state);
            escape_html(out, text);
            out.append("<br>\n");
            proof {
                let f = Fragment::Plain(text@);
                lemma_fragments_html_one(f);
                lemma_fragments_html_concat(close, seq![f]);
                assert(out@ =~= old(out)@ + fragments_html(fs));
            }
        },
    }
}

/// Appends what ends a document in a state: the end of what is still open.
pub fn render_end(out: &mut String, state: &ParseState)
    ensures
        final(out)@ == old(out)@ + fragments_html(end_fragments(*state)),
{
    proof {
        lemma_fragments_html_one(Fragment::ListClose);
        lemma_fragments_html_one(Fragment::PreClose);
        lemma_fragments_html_concat(seq![Fragment::ListClose], seq![Fragment::PreClose]);
        assert(fragments_html(Seq::<Fragment>::empty()) =~= Seq::<char>::empty());
        assert(seq![Fragment::ListClose] + Seq::<Fragment>::empty() =~= seq![Fragment::ListClose]);
        assert(Seq::<Fragment>::empty() + seq![Fragment::PreClose] =~= seq![Fragment::PreClose]);
        assert(Seq::<Fragment>::empty() + Seq::<Fragment>::empty() =~= Seq::<Fragment>::empty());
    }
    if state.in_list {
        out.append("</ul>\n");
    }
    if state.in_preformatted {
        out.append("</pre>\n");
    }
    proof {
        assert(out@ =~= old(out)@ + fragments_html(end_fragments(*state)));
    }
}

/// Converts a gemtext document to HTML under a configuration.
pub fn convert(document_text: &str, config: &ConvertConfig) -> (html: String)
    ensures
        html@ == converted(document_text@, config@),
{
    let mut out = String::new();
    let mut state = ParseState { in_preformatted: false, in_list: false };
    let mut rest = document_text;
    proof {
        assert(out@ + fragments_html(lines_fragments(lines(rest@), state, config@)) =~= converted(
            document_text@,
            config@,
        ));
    }
    while !rest.is_empty()
        invariant
            converted(document_text@, config@) == out@ + fragments_html(
                lines_fragments(lines(rest@), state, config@),
            ),
        decreases rest@.len(),
    {
        let (line, next) = split_line(rest);
        let kind = classify_line(line, &state);
        let ghost before = out@;
        let ghost state_before = state;
        render_line(&mut out, &kind, &mut state, config);
        proof {
            let ls = lines(rest@);
            assert(ls[0] == line@);
            assert(ls.drop_first() =~= lines(next@));
            let here = line_fragments(kind@, state_before, config@);
            let later = lines_fragments(lines(next@), state, config@);
            assert(lines_fragments(ls, state_before, config@) == here + later);
            lemma_fragments_html_concat(here, later);
            assert(before + (fragments_html(here) + fragments_html(later)) =~= (before
                + fragments_html(here)) + fragments_html(later));
        }
        rest = next;
    }
    let ghost before = out@;
    render_end(&mut out, &state);
    proof {
        assert(lines(rest@).len() == 0);
    }
    out
}

impl ConvertConfig {
    /// The configuration of `gemtext_to_html`: the schemes `https`, `http`,
    /// `gemini`, `gopher` and `mailto`, the proxy at
    /// `https://portal.mozz.us/gemini/`, and media shown in the page.
    pub fn standard() -> (config: ConvertConfig)
        ensures
            config@ == standard_config(),
    {
        let mut schemes: Vec<String> = Vec::new();
        schemes.push(String::from_str("https"));
        schemes.push(String::from_str("http"));
        schemes.push(String::from_str("gemini"));
        schemes.push(String::from_str("gopher"));
        schemes.push(String::from_str("mailto"));
        let config = ConvertConfig {
            allowed_schemes: schemes,
            proxy_base_url: String::from_str("https://portal.mozz.us/gemini/"),
            inline_media: true,
        };
        proof {
            assert(config@.allowed_schemes =~= standard_config().allowed_schemes);
        }
        config
    }
}

/// Converts a gemtext document to HTML under the standard configuration.
pub fn gemtext_to_html(input_text: &str) -> (html: String)
    ensures
        html@ == converted(input_text@, standard_config()),
{
    let config = ConvertConfig::standard();
    convert(input_text, &config)
}

/// Whether a line has no syntax of its own: it starts with none of three
/// backticks, `* `, `#`, `>` and `=>`.
pub open spec fn is_plain_line(line: Seq<char>) -> bool {
    &&& !"```"@.is_prefix_of(line)
    &&& !"* "@.is_prefix_of(line)
    &&& !"#"@.is_prefix_of(line)
    &&& !">"@.is_prefix_of(line)
    &&& !"=>"@.is_prefix_of(line)
}

/// Each line escaped and followed by a line break, in order.
pub open spec fn plain_html(ls: Seq<Seq<char>>) -> Seq<char>
    decreases ls.len(),
{
    if ls.len() == 0 {
        Seq::<char>::empty()
    } else {
        html_escaped(ls[0]) + "<br>\n"@ + plain_html(ls.drop_first())
    }
}

/// Lines without syntax of their own, met with nothing open, render to
/// their escaped texts, each followed by a line break.
proof fn lemma_plain_lines(ls: Seq<Seq<char>>, config: ConvertConfigView)
    requires
        forall|i: int| 0 <= i < ls.len() ==> is_plain_line(#[trigger] ls[i]),
    ensures
        fragments_html(lines_fragments(ls, initial_state(), config)) == plain_html(ls),
    decreases ls.len(),
{
    let state = initial_state();
    if ls.len() == 0 {
        assert(end_fragments(state) =~= Seq::<Fragment>::empty());
    } else {
        let rest = ls.drop_first();
        assert(is_plain_line(ls[0]));
        assert forall|i: int| 0 <= i < rest.len() implies is_plain_line(#[trigger] rest[i]) by {
            assert(rest[i] == ls[i + 1]);
        }
        lemma_plain_lines(rest, config);
        let line = classify(ls[0], state);
        assert(line == LineKindView::PlainText(ls[0]));
        let here = line_fragments(line, state, config);
        assert(here =~= seq![Fragment::Plain(ls[0])]);
        assert(next_state(line, state) == state);
        lemma_fragments_html_one(Fragment::Plain(ls[0]));
        lemma_fragments_html_concat(here, lines_fragments(rest, state, config));
    }
}

/// A document without syntax converts to its lines, each escaped and followed
/// by `<br>` and a line feed, in their order.
pub proof fn lemma_plain_document(text: Seq<char>, config: ConvertConfigView)
    requires
        forall|i: int| 0 <= i < lines(text).len() ==> is_plain_line(#[trigger] lines(text)[i]),
    ensures
        converted(text, config) == plain_html(lines(text)),
{
    lemma_plain_lines(lines(text), config);
}

/// A link to an absolute URL whose scheme is not allowed is still rendered:
/// as an anchor with an empty `href` that shows the text of the link. The
/// line that holds it renders to that anchor, after the end of an open list.
pub proof fn lemma_disallowed_scheme(
    target: Seq<char>,
    label: Option<Seq<char>>,
    state: ParseState,
    config: ConvertConfigView,
)
    requires
        url_parse(target) is Ok,
        !config.allowed_schemes.contains(url_parse(target)->Ok_0.scheme),
    ensures
        link_fragment(target, label, config) == Fragment::Link(
            RenderKind::PlainLink,
            Seq::<char>::empty(),
            link_text(target, label),
        ),
        fragment_html(link_fragment(target, label, config)) == "<a href=\""@ + "\">"@
            + html_escaped(link_text(target, label)) + "</a>"@ + "<br>\n"@,
        line_fragments(LineKindView::Link(target, label), state, config).last() == link_fragment(
            target,
            label,
            config,
        ),
{
    assert("<a href=\""@ + Seq::<char>::empty() =~= "<a href=\""@);
}

/// Whether the pieces open and close lists in turn, `open` telling whether a
/// list is open before them: a list starts only where none is open, ends only
/// where one is open, items stand only in an open list, and no list is left
/// open.
pub open spec fn lists_balanced(fs: Seq<Fragment>, open: bool) -> bool
    decreases fs.len(),
{
    if fs.len() == 0 {
        !open
    } else {
        match fs[0] {
            Fragment::ListOpen => !open && lists_balanced(fs.drop_first(), true),
            Fragment::ListClose => open && lists_balanced(fs.drop_first(), false),
            Fragment::ListItem(_) => open && lists_balanced(fs.drop_first(), open),
            _ => lists_balanced(fs.drop_first(), open),
        }
    }
}

/// Whether the pieces open and close preformatted blocks in turn, `open`
/// telling whether a block is open before them: a block starts only where none
/// is open, ends only where one is open, its lines stand only in an open
/// block, and no block is left open.
pub open spec fn blocks_balanced(fs: Seq<Fragment>, open: bool) -> bool
    decreases fs.len(),
{
    if fs.len() == 0 {
        !open
    } else {
        match fs[0] {
            Fragment::PreOpen(_) => !open && blocks_balanced(fs.drop_first(), true),
            Fragment::PreClose => open && blocks_balanced(fs.drop_first(), false),
            Fragment::PreLine(_) => open && blocks_balanced(fs.drop_first(), open),
            _ => blocks_balanced(fs.drop_first(), open),
        }
    }
}

/// What a piece before others asks of them for lists to be balanced.
proof fn lemma_lists_balanced_after(f: Fragment, rest: Seq<Fragment>, open: bool)
    ensures
        lists_balanced(seq![f] + rest, open) == (match f {
            Fragment::ListOpen => !open && lists_balanced(rest, true),
            Fragment::ListClose => open && lists_balanced(rest, false),
            Fragment::ListItem(_) => open && lists_balanced(rest, open),
            _ => lists_balanced(rest, open),
        }),
{
    assert((seq![f] + rest).drop_first() =~= rest);
}

/// What a piece before others asks of them for blocks to be balanced.
proof fn lemma_blocks_balanced_after(f: Fragment, rest: Seq<Fragment>, open: bool)
    ensures
        blocks_balanced(seq![f] + rest, open) == (match f {
            Fragment::PreOpen(_) => !open && blocks_balanced(rest, true),
            Fragment::PreClose => open && blocks_balanced(rest, false),
            Fragment::PreLine(_) => open && blocks_balanced(rest, open),
            _ => blocks_balanced(rest, open),
        }),
{
    assert((seq![f] + rest).drop_first() =~= rest);
}

/// From any state on, lines render to pieces in which lists and blocks are
/// balanced.
proof fn lemma_lines_balanced(ls: Seq<Seq<char>>, state: ParseState, config: ConvertConfigView)
    ensures
        lists_balanced(lines_fragments(ls, state, config), state.in_list),
        blocks_balanced(lines_fragments(ls, state, config), state.in_preformatted),
    decreases ls.len(),
{
    let none = Seq::<Fragment>::empty();
    if ls.len() == 0 {
        let fs = end_fragments(state);
        lemma_lists_balanced_after(Fragment::ListClose, none, true);
        lemma_lists_balanced_after(Fragment::PreClose, none, false);
        lemma_lists_balanced_after(Fragment::ListClose, seq![Fragment::PreClose], true);
        lemma_blocks_balanced_after(Fragment::PreClose, none, true);
        lemma_blocks_balanced_after(Fragment::ListClose, none, false);
        lemma_blocks_balanced_after(Fragment::ListClose, seq![Fragment::PreClose], true);
        assert(seq![Fragment::PreClose] =~= seq![Fragment::PreClose] + none);
        assert(seq![Fragment::ListClose] =~= seq![Fragment::ListClose] + none);
        if state.in_list && state.in_preformatted {
            assert(fs =~= seq![Fragment::ListClose] + seq![Fragment::PreClose]);
        } else if state.in_list {
            assert(fs =~= seq![Fragment::ListClose] + none);
        } else if state.in_preformatted {
            assert(fs =~= seq![Fragment::PreClose] + none);
        } else {
            assert(fs =~= none);
        }
    } else {
        let line = classify(ls[0], state);
        let next = next_state(line, state);
        let rest = lines_fragments(ls.drop_first(), next, config);
        lemma_lines_balanced(ls.drop_first(), next, config);
        let all = lines_fragments(ls, state, config);
        match line {
            LineKindView::PreformatToggle(alt) => {
                let f = if state.in_preformatted {
                    Fragment::PreClose
                } else {
                    Fragment::PreOpen(alt)
                };
                assert(all =~= seq![f] + rest);
                lemma_lists_balanced_after(f, rest, state.in_list);
                lemma_blocks_balanced_after(f, rest, state.in_preformatted);
            },
            LineKindView::PreformattedContent(text) => {
                let f = Fragment::PreLine(text);
                assert(all =~= seq![f] + rest);
                lemma_lists_balanced_after(f, rest, state.in_list);
                lemma_blocks_balanced_after(f, rest, state.in_preformatted);
            },
            LineKindView::ListItem(text) => {
                let item = Fragment::ListItem(text);
                lemma_lists_balanced_after(item, rest, true);
                lemma_blocks_balanced_after(item, rest, state.in_preformatted);
                if state.in_list {
                    assert(all =~= seq![item] + rest);
                } else {
                    assert(all =~= seq![Fragment::ListOpen] + (seq![item] + rest));
                    lemma_lists_balanced_after(Fragment::ListOpen, seq![item] + rest, false);
                    lemma_blocks_balanced_after(
                        Fragment::ListOpen,
                        seq![item] + rest,
                        state.in_preformatted,
                    );
                }
            },
            _ => {
                let f = line_fragments(line, state, config).last();
                assert(!(f is ListOpen) && !(f is ListClose) && !(f is ListItem));
                assert(!(f is PreOpen) && !(f is PreClose) && !(f is PreLine));
                lemma_lists_balanced_after(f, rest, false);
                lemma_blocks_balanced_after(f, rest, state.in_preformatted);
                if state.in_list {
                    assert(all =~= seq![Fragment::ListClose] + (seq![f] + rest));
                    lemma_lists_balanced_after(Fragment::ListClose, seq![f] + rest, true);
                    lemma_blocks_balanced_after(
                        Fragment::ListClose,
                        seq![f] + rest,
                        state.in_preformatted,
                    );
                } else {
                    assert(all =~= seq![f] + rest);
                }
            },
        }
    }
}

/// Whatever the document, what is opened in its output is closed, and
/// nothing is closed that was not opened: lists and preformatted blocks
/// start and end in turn, also where the document leaves one open at its end.
pub proof fn lemma_document_balanced(text: Seq<char>, config: ConvertConfigView)
    ensures
        lists_balanced(document_fragments(text, config), false),
        blocks_balanced(document_fragments(text, config), false),
{
    lemma_lines_balanced(lines(text), initial_state(), config);
}

/// The `href` or `src` value of a link cannot end its attribute, unless the
/// link leads to an absolute URL of an allowed scheme, which is written as the
/// URL parser gave it: it holds no `"`, `'`, `<` or `>`, and every `%` in it
/// starts a percent-encoded byte.
pub proof fn lemma_href_is_inert(target: LinkTargetView, config: ConvertConfigView)
    requires
        target matches LinkTargetView::Absolute(url) ==> !config.allowed_schemes.contains(
            url.scheme,
        ),
    ensures
        is_href_text(link_href(target, config)),
{
    match target {
        LinkTargetView::Relative(raw) => {
            lemma_href_escaped_is_href_text(raw);
        },
        _ => {},
    }
}

} // verus!
