//! White space in text: trimming, and splitting into the words between it.

use crate::utf8::{
    byte_pos, char_width, lemma_byte_pos_split, lemma_byte_pos_step, scalar_at, substr,
};
use vstd::prelude::*;
use vstd::string::*;
use vstd::utf8::*;

verus! {

/// Whether the scalar value `v` is that of a character with the Unicode
/// property White_Space.
pub open spec fn is_whitespace_scalar(v: u32) -> bool {
    ||| 0x09 <= v <= 0x0d
    ||| v == 0x20
    ||| v == 0x85
    ||| v == 0xa0
    ||| v == 0x1680
    ||| 0x2000 <= v <= 0x200a
    ||| v == 0x2028
    ||| v == 0x2029
    ||| v == 0x202f
    ||| v == 0x205f
    ||| v == 0x3000
}

/// Whether `c` has the Unicode property White_Space.
pub open spec fn is_whitespace(c: char) -> bool {
    is_whitespace_scalar(c as u32)
}

/// `s` without the white space at its start.
pub open spec fn trim_start(s: Seq<char>) -> Seq<char>
    decreases s.len(),
{
    if s.len() > 0 && is_whitespace(s[0]) {
        trim_start(s.drop_first())
    } else {
        s
    }
}

/// `s` without the white space at its end.
pub open spec fn trim_end(s: Seq<char>) -> Seq<char>
    decreases s.len(),
{
    if s.len() > 0 && is_whitespace(s.last()) {
        trim_end(s.drop_last())
    } else {
        s
    }
}

/// `s` without the white space at its start and at its end.
pub open spec fn trimmed(s: Seq<char>) -> Seq<char> {
    trim_end(trim_start(s))
}

/// Length of the word that `s` starts with: the index of its first white
/// space character, or the length of `s` where it has none.
pub open spec fn word_end(s: Seq<char>) -> int
    decreases s.len(),
{
    if s.len() == 0 || is_whitespace(s[0]) {
        0
    } else {
        1 + word_end(s.drop_first())
    }
}

/// `word_end` lies within `s`, and is not 0 where `s` starts with a word.
pub proof fn lemma_word_end(s: Seq<char>)
    ensures
        0 <= word_end(s) <= s.len(),
        s.len() > 0 && !is_whitespace(s[0]) ==> word_end(s) >= 1,
    decreases s.len(),
{
    if s.len() == 0 || is_whitespace(s[0]) {
    } else {
        lemma_word_end(s.drop_first());
    }
}

/// Trimming at the start leaves no more than there was, and nothing that
/// starts with white space.
pub proof fn lemma_trim_start_len(s: Seq<char>)
    ensures
        trim_start(s).len() <= s.len(),
        trim_start(s).len() > 0 ==> !is_whitespace(trim_start(s)[0]),
    decreases s.len(),
{
    if s.len() > 0 && is_whitespace(s[0]) {
        lemma_trim_start_len(s.drop_first());
    }
}

/// The words of `s`: the longest runs of characters that are not white space,
/// in their order.
pub open spec fn words(s: Seq<char>) -> Seq<Seq<char>>
    decreases s.len(),
{
    let t = trim_start(s);
    if t.len() == 0 {
        Seq::<Seq<char>>::empty()
    } else {
        proof {
            lemma_trim_start_len(s);
            lemma_word_end(t);
        }
        seq![t.take(word_end(t))] + words(t.skip(word_end(t)))
    }
}

/// The texts of `parts`, with one space between each two.
pub open spec fn joined(parts: Seq<Seq<char>>) -> Seq<char>
    decreases parts.len(),
{
    if parts.len() == 0 {
        Seq::<char>::empty()
    } else if parts.len() == 1 {
        parts[0]
    } else {
        parts[0] + seq![' '] + joined(parts.drop_first())
    }
}

/// Tests a scalar value for being that of a white space character.
pub fn whitespace_scalar(v: u32) -> (r: bool)
    ensures
        r == is_whitespace_scalar(v),
{
    (0x09 <= v && v <= 0x0d) || v == 0x20 || v == 0x85 || v == 0xa0 || v == 0x1680 || (0x2000
        <= v && v <= 0x200a) || v == 0x2028 || v == 0x2029 || v == 0x202f || v == 0x205f || v
        == 0x3000
}

/// Byte offset of the first character of `s`, from the character at byte
/// `from` on, that is not white space; the length of `s` if there is none.
fn skip_whitespace(s: &str, from: usize, Ghost(kf): Ghost<int>) -> (r: (usize, Ghost<int>))
    requires
        0 <= kf <= s@.len(),
        from == byte_pos(s@, kf),
    ensures
        kf <= r.1@ <= s@.len(),
        r.0 == byte_pos(s@, r.1@),
        r.0 <= s.spec_bytes().len(),
        trim_start(s@.skip(kf)) == s@.skip(r.1@),
{
    let bytes = s.as_bytes();
    let n = bytes.len();
    let mut i: usize = from;
    let ghost mut k: int = kf;
    proof {
        lemma_byte_pos_split(s@, kf);
    }
    while i < n
        invariant
            n == bytes@.len(),
            bytes@ == encode_utf8(s@),
            0 <= kf <= k <= s@.len(),
            i == byte_pos(s@, k),
            i <= n,
            trim_start(s@.skip(kf)) == trim_start(s@.skip(k)),
        decreases n - i,
    {
        proof {
            lemma_byte_pos_split(s@, k);
            lemma_byte_pos_step(s@, k);
        }
        let v = scalar_at(s, i, Ghost(k));
        if !whitespace_scalar(v) {
            proof {
                assert(s@.skip(k)[0] == s@[k]);
            }
            return (i, Ghost(k));
        }
        proof {
            assert(s@.skip(k)[0] == s@[k]);
            assert(s@.skip(k).drop_first() =~= s@.skip(k + 1));
        }
        i = i + char_width(bytes[i]);
        proof {
            k = k + 1;
        }
    }
    proof {
        lemma_byte_pos_split(s@, k);
        if k < s@.len() {
            lemma_byte_pos_step(s@, k);
        }
    }
    (i, Ghost(k))
}

/// `s` without the white space at its start and at its end.
pub fn trim(s: &str) -> (r: &str)
    ensures
        r@ == trimmed(s@),
{
    let bytes = s.as_bytes();
    let n = bytes.len();
    let (start, Ghost(ks)) = skip_whitespace(s, 0, Ghost(0));
    let mut i: usize = start;
    let mut end: usize = start;
    let ghost mut k: int = ks;
    let ghost mut ke: int = ks;
    proof {
        assert(s@.skip(0) =~= s@);
        assert(s@.subrange(ks, ks) =~= Seq::<char>::empty());
    }
    while i < n
        invariant
            n == bytes@.len(),
            bytes@ == encode_utf8(s@),
            0 <= ks <= ke <= k <= s@.len(),
            i == byte_pos(s@, k),
            end == byte_pos(s@, ke),
            start == byte_pos(s@, ks),
            i <= n,
            trim_end(s@.subrange(ks, k)) == s@.subrange(ks, ke),
        decreases n - i,
    {
        proof {
            lemma_byte_pos_split(s@, k);
            lemma_byte_pos_step(s@, k);
        }
        let v = scalar_at(s, i, Ghost(k));
        i = i + char_width(bytes[i]);
        proof {
            let next = s@.subrange(ks, k + 1);
            assert(next.last() == s@[k]);
            assert(next.drop_last() =~= s@.subrange(ks, k));
        }
        if !whitespace_scalar(v) {
            end = i;
            proof {
                ke = k + 1;
            }
        }
        proof {
            k = k + 1;
        }
    }
    proof {
        lemma_byte_pos_split(s@, k);
        if k < s@.len() {
            lemma_byte_pos_step(s@, k);
        }
        assert(s@.subrange(ks, s@.len() as int) =~= s@.skip(ks));
    }
    substr(s, start, end, Ghost(ks), Ghost(ke))
}

/// Splits `s` into the word that follows the white space at its start, and
/// what follows that word. Where no word is left, both are empty.
pub fn split_word(s: &str) -> (r: (&str, &str))
    ensures
        r.0@ == trim_start(s@).take(word_end(trim_start(s@))),
        r.1@ == trim_start(s@).skip(word_end(trim_start(s@))),
        r.0@.len() == 0 <==> trim_start(s@).len() == 0,
        r.0@.len() > 0 ==> r.1@.len() < s@.len(),
{
    let bytes = s.as_bytes();
    let n = bytes.len();
    let (start, Ghost(ks)) = skip_whitespace(s, 0, Ghost(0));
    let mut i: usize = start;
    let ghost mut k: int = ks;
    let ghost t = s@.skip(ks);
    proof {
        assert(s@.skip(0) =~= s@);
        lemma_word_end(t);
    }
    while i < n
        invariant
            n == bytes@.len(),
            bytes@ == encode_utf8(s@),
            0 <= ks <= k <= s@.len(),
            i == byte_pos(s@, k),
            start == byte_pos(s@, ks),
            i <= n,
            t == s@.skip(ks),
            t == trim_start(s@),
            word_end(t) == (k - ks) + word_end(s@.skip(k)),
        decreases n - i,
    {
        proof {
            lemma_byte_pos_split(s@, k);
            lemma_byte_pos_step(s@, k);
            assert(s@.skip(k)[0] == s@[k]);
            assert(s@.skip(k).drop_first() =~= s@.skip(k + 1));
        }
        let v = scalar_at(s, i, Ghost(k));
        if whitespace_scalar(v) {
            proof {
                lemma_byte_pos_split(s@, s@.len() as int);
                assert(t.take(k - ks) =~= s@.subrange(ks, k));
                assert(t.skip(k - ks) =~= s@.subrange(k, s@.len() as int));
                assert(t[0] == s@[ks]);
                lemma_trim_start_len(s@);
            }
            let word = substr(s, start, i, Ghost(ks), Ghost(k));
            let rest = substr(s, i, n, Ghost(k), Ghost(s@.len() as int));
            return (word, rest);
        }
        i = i + char_width(bytes[i]);
        proof {
            k = k + 1;
        }
    }
    proof {
        lemma_byte_pos_split(s@, k);
        if k < s@.len() {
            lemma_byte_pos_step(s@, k);
        }
        lemma_byte_pos_split(s@, s@.len() as int);
        assert(t.take(k - ks) =~= s@.subrange(ks, k));
        assert(t.skip(k - ks) =~= s@.subrange(k, s@.len() as int));
        if t.len() > 0 {
            assert(t[0] == s@[ks]);
        }
    }
    let word = substr(s, start, i, Ghost(ks), Ghost(k));
    let rest = substr(s, i, n, Ghost(k), Ghost(s@.len() as int));
    (word, rest)
}

/// The words of `s`, with one space between each two.
pub fn join_words(s: &str) -> (r: String)
    ensures
        r@ == joined(words(s@)),
{
    let mut out = String::new();
    let mut rest = s;
    let mut first = true;
    proof {
        reveal_strlit(" ");
        assert(out@ + joined(words(rest@)) =~= joined(words(s@)));
    }
    loop
        invariant
            " "@ == seq![' '],
            first ==> joined(words(s@)) == out@ + joined(words(rest@)),
            !first ==> joined(words(s@)) == out@ + (if words(rest@).len() == 0 {
                Seq::<char>::empty()
            } else {
                seq![' '] + joined(words(rest@))
            }),
        decreases rest@.len(),
    {
        let (word, next) = split_word(rest);
        proof {
            lemma_word_end(trim_start(rest@));
        }
        if word.is_empty() {
            proof {
                assert(words(rest@).len() == 0);
                assert(out@ + Seq::<char>::empty() =~= out@);
            }
            return out;
        }
        let ghost before = out@;
        if !first {
            out.append(" ");
        }
        out.append(word);
        proof {
            let ws = words(rest@);
            assert(ws[0] == word@);
            assert(ws.drop_first() =~= words(next@));
            if words(next@).len() == 0 {
                assert(joined(ws) == word@);
                assert(word@ + Seq::<char>::empty() =~= word@);
            } else {
                assert(joined(ws) == word@ + seq![' '] + joined(words(next@)));
            }
            if first {
                assert(joined(words(s@)) =~= out@ + (if words(next@).len() == 0 {
                    Seq::<char>::empty()
                } else {
                    seq![' '] + joined(words(next@))
                }));
            } else {
                assert(joined(words(s@)) =~= out@ + (if words(next@).len() == 0 {
                    Seq::<char>::empty()
                } else {
                    seq![' '] + joined(words(next@))
                }));
            }
        }
        first = false;
        rest = next;
    }
}

} // verus!
