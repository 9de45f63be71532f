//! Escaping of text for HTML content and for `href` attribute values.

use crate::utf8::{
    byte_pos, char_width, lead_width, lemma_byte_pos_split, lemma_byte_pos_step, lemma_char_eq,
    lemma_encode_concat, lemma_encode_single, lemma_first_char, substr,
};
use vstd::prelude::*;
use vstd::string::*;
use vstd::utf8::*;

verus! {

/// Class of a byte for HTML escaping: 0 for a byte that passes unchanged, then
/// 1 for `"`, 2 for `&`, 3 for `<` and 4 for `>`.
pub open spec fn html_escape_class(b: u8) -> u8 {
    if b == 0x22 {
        1
    } else if b == 0x26 {
        2
    } else if b == 0x3c {
        3
    } else if b == 0x3e {
        4
    } else {
        0
    }
}

/// Whether `c` is one of the four characters that HTML text replaces by an entity.
pub open spec fn is_html_special(c: char) -> bool {
    c == '"' || c == '&' || c == '<' || c == '>'
}

/// What stands for `c` in HTML text: its entity, or the character itself.
pub open spec fn html_entity(c: char) -> Seq<char> {
    if c == '"' {
        "&quot;"@
    } else if c == '&' {
        "&amp;"@
    } else if c == '<' {
        "&lt;"@
    } else if c == '>' {
        "&gt;"@
    } else {
        seq![c]
    }
}

/// `s` with each of `"`, `&`, `<`, `>` replaced by its entity, and every other
/// character kept.
pub open spec fn html_escaped(s: Seq<char>) -> Seq<char>
    decreases s.len(),
{
    if s.len() == 0 {
        Seq::<char>::empty()
    } else {
        html_entity(s[0]) + html_escaped(s.drop_first())
    }
}

/// Escaping goes through concatenation.
pub proof fn lemma_html_escaped_concat(a: Seq<char>, b: Seq<char>)
    ensures
        html_escaped(a + b) == html_escaped(a) + html_escaped(b),
    decreases a.len(),
{
    if a.len() == 0 {
        assert(a + b =~= b);
        assert(html_escaped(a) + html_escaped(b) =~= html_escaped(b));
    } else {
        lemma_html_escaped_concat(a.drop_first(), b);
        assert((a + b).drop_first() =~= a.drop_first() + b);
        assert(html_escaped(a + b) =~= html_escaped(a) + html_escaped(b));
    }
}

/// A single character escapes to what stands for it.
pub proof fn lemma_html_escaped_single(c: char)
    ensures
        html_escaped(seq![c]) == html_entity(c),
{
    let s = seq![c];
    assert(s.drop_first() =~= Seq::<char>::empty());
    assert(html_entity(c) + html_escaped(s.drop_first()) =~= html_entity(c));
}

/// Text without any of the four special characters escapes to itself.
pub proof fn lemma_html_escaped_plain(s: Seq<char>)
    requires
        forall|i: int| 0 <= i < s.len() ==> !is_html_special(#[trigger] s[i]),
    ensures
        html_escaped(s) == s,
    decreases s.len(),
{
    if s.len() > 0 {
        let t = s.drop_first();
        assert forall|i: int| 0 <= i < t.len() implies !is_html_special(#[trigger] t[i]) by {
            assert(t[i] == s[i + 1]);
        }
        lemma_html_escaped_plain(t);
        assert(html_escaped(s) =~= s);
    } else {
        assert(html_escaped(s) =~= s);
    }
}

/// The table that gives each byte its class for HTML escaping.
pub fn create_html_escape_table() -> (table: [u8; 256])
    ensures
        forall|b: u8| #[trigger] table@[b as int] == html_escape_class(b),
{
    let mut table: [u8; 256] = [0u8; 256];
    table[0x22] = 1;
    table[0x26] = 2;
    table[0x3c] = 3;
    table[0x3e] = 4;
    table
}

/// The entity of a class of special bytes.
fn entity_of_class(class: u8) -> (r: &'static str)
    requires
        1 <= class <= 4,
    ensures
        class == 1 ==> r@ == "&quot;"@,
        class == 2 ==> r@ == "&amp;"@,
        class == 3 ==> r@ == "&lt;"@,
        class == 4 ==> r@ == "&gt;"@,
{
    if class == 1 {
        "&quot;"
    } else if class == 2 {
        "&amp;"
    } else if class == 3 {
        "&lt;"
    } else {
        "&gt;"
    }
}

/// Appends `s` to `w` with the special characters of HTML text replaced by
/// entities, classifying bytes by `table`.
pub fn escape_html_with(table: &[u8; 256], w: &mut String, s: &str)
    requires
        forall|b: u8| #[trigger] table@[b as int] == html_escape_class(b),
    ensures
        final(w)@ == old(w)@ + html_escaped(s@),
{
    let bytes = s.as_bytes();
    let n = bytes.len();
    let mut mark: usize = 0;
    let mut i: usize = 0;
    let ghost mut km: int = 0;
    let ghost mut k: int = 0;
    proof {
        lemma_byte_pos_split(s@, 0);
        assert(s@.take(0) =~= Seq::<char>::empty());
        assert(old(w)@ + html_escaped(s@.take(0)) =~= old(w)@);
    }
    while i < n
        invariant
            n == bytes@.len(),
            bytes@ == encode_utf8(s@),
            forall|b: u8| #[trigger] table@[b as int] == html_escape_class(b),
            0 <= km <= k <= s@.len(),
            mark == byte_pos(s@, km),
            i == byte_pos(s@, k),
            i <= n,
            w@ == old(w)@ + html_escaped(s@.take(km)),
            forall|j: int| km <= j < k ==> !is_html_special(#[trigger] s@[j]),
        decreases n - i,
    {
        proof {
            lemma_byte_pos_split(s@, k);
            lemma_byte_pos_step(s@, k);
        }
        let b = bytes[i];
        let class = table[b as usize];
        if class != 0 {
            let run = substr(s, mark, i, Ghost(km), Ghost(k));
            w.append(run);
            let entity = entity_of_class(class);
            w.append(entity);
            proof {
                let c = s@[k];
                assert(c as u32 == b as u32);
                if class == 1 {
                    lemma_char_eq(c, '"');
                } else if class == 2 {
                    lemma_char_eq(c, '&');
                } else if class == 3 {
                    lemma_char_eq(c, '<');
                } else {
                    lemma_char_eq(c, '>');
                }
                assert(html_entity(c) == entity@);
                lemma_html_escaped_plain(s@.subrange(km, k));
                lemma_html_escaped_single(c);
                lemma_html_escaped_concat(s@.take(km), s@.subrange(km, k));
                lemma_html_escaped_concat(s@.take(km) + s@.subrange(km, k), seq![c]);
                assert(s@.take(k + 1) =~= (s@.take(km) + s@.subrange(km, k)) + seq![c]);
                assert(w@ =~= old(w)@ + html_escaped(s@.take(k + 1)));
            }
            i = i + 1;
            mark = i;
            proof {
                k = k + 1;
                km = k;
            }
        } else {
            proof {
                let c = s@[k];
                if b < 0x80 {
                    assert(c as u32 == b as u32);
                }
                assert(!is_html_special(c));
            }
            i = i + char_width(b);
            proof {
                k = k + 1;
            }
        }
    }
    proof {
        lemma_byte_pos_split(s@, k);
        if k < s@.len() {
            lemma_byte_pos_step(s@, k);
        }
        lemma_byte_pos_split(s@, s@.len() as int);
    }
    let run = substr(s, mark, n, Ghost(km), Ghost(s@.len() as int));
    w.append(run);
    proof {
        lemma_html_escaped_plain(s@.subrange(km, s@.len() as int));
        lemma_html_escaped_concat(s@.take(km), s@.subrange(km, s@.len() as int));
        assert(s@ =~= s@.take(km) + s@.subrange(km, s@.len() as int));
    }
}

/// Appends `s` to `w` with `"`, `&`, `<` and `>` replaced by `&quot;`, `&amp;`,
/// `&lt;` and `&gt;`; every other character passes unchanged.
pub fn escape_html(w: &mut String, s: &str)
    ensures
        final(w)@ == old(w)@ + html_escaped(s@),
{
    let table = create_html_escape_table();
    escape_html_with(&table, w, s)
}

/// Whether the byte `b` may stand as it is in an `href` value: an ASCII letter
/// or digit, or one of `! # $ ( ) * + , - . / : ; = ? @ _`.
pub open spec fn is_href_safe(b: u8) -> bool {
    ||| 0x61 <= b <= 0x7a  // a to z
    ||| 0x40 <= b <= 0x5a  // @, A to Z
    ||| 0x30 <= b <= 0x3b  // 0 to 9, : ;
    ||| 0x28 <= b <= 0x2f  // ( ) * + , - . /
    ||| b == 0x21  // !
    ||| b == 0x23  // #
    ||| b == 0x24  // $
    ||| b == 0x3d  // =
    ||| b == 0x3f  // ?
    ||| b == 0x5f  // _
}

/// The upper-case hexadecimal digit of a value below 16.
pub open spec fn hex_digit(n: int) -> char {
    if n < 10 {
        ('0' as int + n) as char
    } else {
        ('A' as int + n - 10) as char
    }
}

/// What stands for the byte `b` in an `href` value: the byte itself where it is
/// safe, `&amp;` for `&`, `&#x27;` for `'`, and else `%` with the byte's two
/// upper-case hexadecimal digits.
pub open spec fn href_escaped_byte(b: u8) -> Seq<char> {
    if is_href_safe(b) {
        seq![b as char]
    } else if b == 0x26 {
        "&amp;"@
    } else if b == 0x27 {
        "&#x27;"@
    } else {
        seq!['%', hex_digit(b as int / 16), hex_digit(b as int % 16)]
    }
}

/// The bytes `bs`, each replaced by what stands for it in an `href` value.
pub open spec fn href_escaped_bytes(bs: Seq<u8>) -> Seq<char>
    decreases bs.len(),
{
    if bs.len() == 0 {
        Seq::<char>::empty()
    } else {
        href_escaped_byte(bs[0]) + href_escaped_bytes(bs.drop_first())
    }
}

/// `s` as an `href` value: its UTF-8 bytes, each replaced by what stands for
/// it, so that a character of several bytes gives one `%XX` for each of them.
pub open spec fn href_escaped(s: Seq<char>) -> Seq<char> {
    href_escaped_bytes(encode_utf8(s))
}

/// Whether `c` is a character that an `href` value keeps as it is.
pub open spec fn is_href_safe_char(c: char) -> bool {
    (c as u32) < 0x80 && is_href_safe((c as u32) as u8)
}

/// Escaping of bytes goes through concatenation.
pub proof fn lemma_href_escaped_bytes_concat(a: Seq<u8>, b: Seq<u8>)
    ensures
        href_escaped_bytes(a + b) == href_escaped_bytes(a) + href_escaped_bytes(b),
    decreases a.len(),
{
    if a.len() == 0 {
        assert(a + b =~= b);
        assert(href_escaped_bytes(a) + href_escaped_bytes(b) =~= href_escaped_bytes(b));
    } else {
        lemma_href_escaped_bytes_concat(a.drop_first(), b);
        assert((a + b).drop_first() =~= a.drop_first() + b);
        assert(href_escaped_bytes(a + b) =~= href_escaped_bytes(a) + href_escaped_bytes(b));
    }
}

/// A single byte escapes to what stands for it.
pub proof fn lemma_href_escaped_bytes_single(b: u8)
    ensures
        href_escaped_bytes(seq![b]) == href_escaped_byte(b),
{
    let s = seq![b];
    assert(s.drop_first() =~= Seq::<u8>::empty());
    assert(href_escaped_byte(b) + href_escaped_bytes(s.drop_first()) =~= href_escaped_byte(b));
}

/// Escaping for `href` goes through concatenation.
pub proof fn lemma_href_escaped_concat(a: Seq<char>, b: Seq<char>)
    ensures
        href_escaped(a + b) == href_escaped(a) + href_escaped(b),
{
    lemma_encode_concat(a, b);
    lemma_href_escaped_bytes_concat(encode_utf8(a), encode_utf8(b));
}

/// Text of safe characters only is its own `href` value.
pub proof fn lemma_href_escaped_safe(s: Seq<char>)
    requires
        forall|i: int| 0 <= i < s.len() ==> is_href_safe_char(#[trigger] s[i]),
    ensures
        href_escaped(s) == s,
    decreases s.len(),
{
    if s.len() > 0 {
        let t = s.drop_first();
        assert forall|i: int| 0 <= i < t.len() implies is_href_safe_char(#[trigger] t[i]) by {
            assert(t[i] == s[i + 1]);
        }
        lemma_href_escaped_safe(t);
        assert(s =~= seq![s[0]] + t);
        lemma_href_escaped_concat(seq![s[0]], t);
        lemma_encode_single(s[0]);
        lemma_first_char(seq![s[0]]);
        let e = encode_utf8(seq![s[0]]);
        assert(e =~= seq![e[0]]);
        lemma_href_escaped_bytes_single(e[0]);
        lemma_char_eq(s[0], e[0] as char);
        assert(href_escaped(seq![s[0]]) =~= seq![s[0]]);
    } else {
        assert(href_escaped(s) =~= s);
    }
}

/// Tests a byte for being safe in an `href` value.
pub fn href_safe(b: u8) -> (r: bool)
    ensures
        r == is_href_safe(b),
{
    (0x61 <= b && b <= 0x7a) || (0x40 <= b && b <= 0x5a) || (0x30 <= b && b <= 0x3b) || (0x28
        <= b && b <= 0x2f) || b == 0x21 || b == 0x23 || b == 0x24 || b == 0x3d || b == 0x3f || b
        == 0x5f
}

/// The upper-case hexadecimal digit of `n`, as a string.
fn hex_str(n: u8) -> (r: &'static str)
    requires
        n < 16,
    ensures
        r@ == seq![hex_digit(n as int)],
{
    proof {
        reveal_strlit("0");
        reveal_strlit("1");
        reveal_strlit("2");
        reveal_strlit("3");
        reveal_strlit("4");
        reveal_strlit("5");
        reveal_strlit("6");
        reveal_strlit("7");
        reveal_strlit("8");
        reveal_strlit("9");
        reveal_strlit("A");
        reveal_strlit("B");
        reveal_strlit("C");
        reveal_strlit("D");
        reveal_strlit("E");
        reveal_strlit("F");
    }
    let r = match n {
        0 => "0",
        1 => "1",
        2 => "2",
        3 => "3",
        4 => "4",
        5 => "5",
        6 => "6",
        7 => "7",
        8 => "8",
        9 => "9",
        10 => "A",
        11 => "B",
        12 => "C",
        13 => "D",
        14 => "E",
        _ => "F",
    };
    proof {
        lemma_char_eq(r@[0], hex_digit(n as int));
        assert(r@ =~= seq![hex_digit(n as int)]);
    }
    r
}

/// Appends what stands for the unsafe byte `b` in an `href` value.
fn push_escaped_byte(w: &mut String, b: u8)
    requires
        !is_href_safe(b),
    ensures
        final(w)@ == old(w)@ + href_escaped_byte(b),
{
    if b == 0x26 {
        w.append("&amp;");
    } else if b == 0x27 {
        w.append("&#x27;");
    } else {
        proof {
            reveal_strlit("%");
        }
        w.append("%");
        w.append(hex_str(b / 16));
        w.append(hex_str(b % 16));
        proof {
            assert("%"@ =~= seq!['%']);
            assert(w@ =~= old(w)@ + href_escaped_byte(b));
        }
    }
}

/// Appends `s` to `w` as an `href` value: every byte outside the safe set is
/// percent-encoded, but for `&` and `'`, which become `&amp;` and `&#x27;`.
pub fn escape_href(w: &mut String, s: &str)
    ensures
        final(w)@ == old(w)@ + href_escaped(s@),
{
    let bytes = s.as_bytes();
    let n = bytes.len();
    let mut mark: usize = 0;
    let mut i: usize = 0;
    let ghost mut km: int = 0;
    let ghost mut k: int = 0;
    proof {
        lemma_byte_pos_split(s@, 0);
        assert(s@.take(0) =~= Seq::<char>::empty());
        assert(old(w)@ + href_escaped(s@.take(0)) =~= old(w)@);
    }
    while i < n
        invariant
            n == bytes@.len(),
            bytes@ == encode_utf8(s@),
            0 <= km <= k <= s@.len(),
            mark == byte_pos(s@, km),
            i == byte_pos(s@, k),
            i <= n,
            w@ == old(w)@ + href_escaped(s@.take(km)),
            forall|j: int| km <= j < k ==> is_href_safe_char(#[trigger] s@[j]),
        decreases n - i,
    {
        proof {
            lemma_byte_pos_split(s@, k);
            lemma_byte_pos_step(s@, k);
        }
        let b = bytes[i];
        let width = char_width(b);
        if href_safe(b) {
            proof {
                assert(s@[k] as u32 == b as u32);
                assert(is_href_safe_char(s@[k]));
            }
            i = i + 1;
            proof {
                k = k + 1;
            }
        } else {
            let run = substr(s, mark, i, Ghost(km), Ghost(k));
            w.append(run);
            let ghost before = w@;
            proof {
                lemma_href_escaped_safe(s@.subrange(km, k));
                lemma_href_escaped_concat(s@.take(km), s@.subrange(km, k));
                assert(s@.take(k) =~= s@.take(km) + s@.subrange(km, k));
                assert(before =~= old(w)@ + href_escaped(s@.take(k)));
            }
            let mut j: usize = 0;
            while j < width
                invariant
                    n == bytes@.len(),
                    j <= width,
                    i + width <= n,
                    width == lead_width(bytes@[i as int]),
                    b == bytes@[i as int],
                    !is_href_safe(b),
                    bytes@ == encode_utf8(s@),
                    0 <= k < s@.len(),
                    i == byte_pos(s@, k),
                    w@ == before + href_escaped_bytes(bytes@.subrange(i as int, i + j)),
                decreases width - j,
            {
                let x = bytes[i + j];
                proof {
                    lemma_byte_pos_step(s@, k);
                }
                push_escaped_byte(w, x);
                proof {
                    let done = bytes@.subrange(i as int, i + j);
                    lemma_href_escaped_bytes_concat(done, seq![x]);
                    lemma_href_escaped_bytes_single(x);
                    assert(bytes@.subrange(i as int, i + j + 1) =~= done + seq![x]);
                }
                j = j + 1;
            }
            proof {
                let c = s@[k];
                lemma_href_escaped_concat(s@.take(k), seq![c]);
                lemma_encode_single(c);
                assert(s@.take(k + 1) =~= s@.take(k) + seq![c]);
                assert(w@ =~= old(w)@ + href_escaped(s@.take(k + 1)));
            }
            i = i + width;
            mark = i;
            proof {
                k = k + 1;
                km = k;
            }
        }
    }
    proof {
        lemma_byte_pos_split(s@, k);
        if k < s@.len() {
            lemma_byte_pos_step(s@, k);
        }
        lemma_byte_pos_split(s@, s@.len() as int);
    }
    let run = substr(s, mark, n, Ghost(km), Ghost(s@.len() as int));
    w.append(run);
    proof {
        lemma_href_escaped_safe(s@.subrange(km, s@.len() as int));
        lemma_href_escaped_concat(s@.take(km), s@.subrange(km, s@.len() as int));
        assert(s@ =~= s@.take(km) + s@.subrange(km, s@.len() as int));
    }
}

/// Whether one of the four entities stands at `i` in `t`.
pub open spec fn entity_at(t: Seq<char>, i: int) -> bool {
    ||| "&quot;"@.is_prefix_of(t.skip(i))
    ||| "&amp;"@.is_prefix_of(t.skip(i))
    ||| "&lt;"@.is_prefix_of(t.skip(i))
    ||| "&gt;"@.is_prefix_of(t.skip(i))
}

/// Whether `t` holds none of `"`, `<` and `>`, and no `&` but at the start of
/// an entity.
pub open spec fn is_html_text(t: Seq<char>) -> bool {
    forall|i: int|
        0 <= i < t.len() ==> {
            let c = #[trigger] t[i];
            &&& c != '"' && c != '<' && c != '>'
            &&& c == '&' ==> entity_at(t, i)
        }
}

/// One HTML text before another is an HTML text.
proof fn lemma_html_text_concat(a: Seq<char>, b: Seq<char>)
    requires
        is_html_text(a),
        is_html_text(b),
    ensures
        is_html_text(a + b),
{
    let t = a + b;
    assert forall|i: int| 0 <= i < t.len() implies {
        let c = #[trigger] t[i];
        &&& c != '"' && c != '<' && c != '>'
        &&& c == '&' ==> entity_at(t, i)
    } by {
        if i < a.len() {
            assert(t[i] == a[i]);
            if a[i] == '&' {
                lemma_prefix_stays(a.skip(i), b, "&quot;"@);
                lemma_prefix_stays(a.skip(i), b, "&amp;"@);
                lemma_prefix_stays(a.skip(i), b, "&lt;"@);
                lemma_prefix_stays(a.skip(i), b, "&gt;"@);
                assert(t.skip(i) =~= a.skip(i) + b);
            }
        } else {
            let j = i - a.len();
            assert(t[i] == b[j]);
            assert(t.skip(i) =~= b.skip(j));
        }
    }
}

/// What a text starts with, it still starts with when more follows it.
proof fn lemma_prefix_stays(a: Seq<char>, b: Seq<char>, p: Seq<char>)
    ensures
        p.is_prefix_of(a) ==> p.is_prefix_of(a + b),
{
    if p.is_prefix_of(a) {
        assert(p =~= (a + b).subrange(0, p.len() as int));
    }
}

/// Escaped text cannot leave the place it stands in: whatever the text, it
/// holds none of `"`, `<` and `>`, and every `&` in it starts an entity.
pub proof fn lemma_html_escaped_is_inert(s: Seq<char>)
    ensures
        is_html_text(html_escaped(s)),
    decreases s.len(),
{
    reveal_strlit("&quot;");
    reveal_strlit("&amp;");
    reveal_strlit("&lt;");
    reveal_strlit("&gt;");
    if s.len() > 0 {
        lemma_html_escaped_is_inert(s.drop_first());
        let head = html_entity(s[0]);
        assert(is_html_text(head)) by {
            assert(head.skip(0) =~= head);
            assert(head =~= head.subrange(0, head.len() as int));
        }
        lemma_html_text_concat(head, html_escaped(s.drop_first()));
    }
}

/// Whether `c` is an upper-case hexadecimal digit.
pub open spec fn is_hex_digit(c: char) -> bool {
    ('0' as u32 <= c as u32 <= '9' as u32) || ('A' as u32 <= c as u32 <= 'F' as u32)
}

/// Whether every `%` of `t` is followed by two hexadecimal digits, and `t`
/// holds none of `"`, `'`, `<` and `>`.
pub open spec fn is_href_text(t: Seq<char>) -> bool {
    forall|i: int|
        0 <= i < t.len() ==> {
            let c = #[trigger] t[i];
            &&& c != '"' && c != '\'' && c != '<' && c != '>'
            &&& c == '%' ==> i + 2 < t.len() && is_hex_digit(t[i + 1]) && is_hex_digit(t[i + 2])
        }
}

/// What stands for a byte in an `href` value is an `href` text: a `%` in it
/// starts the byte's own two digits.
proof fn lemma_href_escaped_byte_is_href_text(b: u8)
    ensures
        is_href_text(href_escaped_byte(b)),
        !is_href_safe(b) && b != 0x26 && b != 0x27 ==> href_escaped_byte(b).len() == 3,
{
    reveal_strlit("&amp;");
    reveal_strlit("&#x27;");
    let t = href_escaped_byte(b);
    if is_href_safe(b) {
        assert(t[0] as u32 == b as u32);
    } else if b == 0x26 {
    } else if b == 0x27 {
    } else {
        let hi = b as int / 16;
        let lo = b as int % 16;
        assert(is_hex_digit(hex_digit(hi)));
        assert(is_hex_digit(hex_digit(lo)));
        assert(t[1] == hex_digit(hi));
        assert(t[2] == hex_digit(lo));
    }
}

/// One `href` text after another is an `href` text.
proof fn lemma_href_text_concat(a: Seq<char>, b: Seq<char>)
    requires
        is_href_text(a),
        is_href_text(b),
    ensures
        is_href_text(a + b),
{
    let t = a + b;
    assert forall|i: int| 0 <= i < t.len() implies {
        let c = #[trigger] t[i];
        &&& c != '"' && c != '\'' && c != '<' && c != '>'
        &&& c == '%' ==> i + 2 < t.len() && is_hex_digit(t[i + 1]) && is_hex_digit(t[i + 2])
    } by {
        if i < a.len() {
            assert(t[i] == a[i]);
            if a[i] == '%' {
                assert(t[i + 1] == a[i + 1]);
                assert(t[i + 2] == a[i + 2]);
            }
        } else {
            let j = i - a.len();
            assert(t[i] == b[j]);
            if b[j] == '%' {
                assert(t[i + 1] == b[j + 1]);
                assert(t[i + 2] == b[j + 2]);
            }
        }
    }
}

/// What stands for bytes in an `href` value is an `href` text.
proof fn lemma_href_escaped_bytes_is_href_text(bs: Seq<u8>)
    ensures
        is_href_text(href_escaped_bytes(bs)),
    decreases bs.len(),
{
    if bs.len() > 0 {
        lemma_href_escaped_byte_is_href_text(bs[0]);
        lemma_href_escaped_bytes_is_href_text(bs.drop_first());
        lemma_href_text_concat(href_escaped_byte(bs[0]), href_escaped_bytes(bs.drop_first()));
    }
}

/// An `href` value never passes a `%` of the text through as it is: every
/// `%` in it starts one percent-encoded byte, so that no text can forge one.
/// Nor does it hold a `"`, `'`, `<` or `>`.
pub proof fn lemma_href_escaped_is_href_text(s: Seq<char>)
    ensures
        is_href_text(href_escaped(s)),
{
    lemma_href_escaped_bytes_is_href_text(encode_utf8(s));
}

/// A `%` in the text stands in the `href` value as `%25`, between the values
/// of what stands before and after it.
pub proof fn lemma_percent_is_encoded(s: Seq<char>, k: int)
    requires
        0 <= k < s.len(),
        s[k] == '%',
    ensures
        href_escaped(s) == href_escaped(s.take(k)) + seq!['%', '2', '5'] + href_escaped(
            s.skip(k + 1),
        ),
{
    assert(s =~= s.take(k) + seq![s[k]] + s.skip(k + 1));
    lemma_href_escaped_concat(s.take(k) + seq![s[k]], s.skip(k + 1));
    lemma_href_escaped_concat(s.take(k), seq![s[k]]);
    lemma_encode_single(s[k]);
    lemma_first_char(seq![s[k]]);
    let e = encode_utf8(seq![s[k]]);
    assert('%' as u32 == 0x25);
    assert(e =~= seq![0x25u8]);
    lemma_href_escaped_bytes_single(0x25u8);
    assert(href_escaped_byte(0x25u8) =~= seq!['%', '2', '5']) by {
        lemma_char_eq(hex_digit(2), '2');
        lemma_char_eq(hex_digit(5), '5');
    }
}

} // verus!
