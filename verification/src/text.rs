//! Text primitives: lines, prefixes and suffixes, comparison and truncation.

use crate::utf8::{
    byte_pos, char_width, lemma_ascii_at, lemma_ascii_suffix_bytes, lemma_ascii_suffix_chars,
    lemma_byte_pos_split, lemma_byte_pos_step, lemma_encode_injective, lemma_prefix_bytes, substr,
    utf8_len,
};
use vstd::prelude::*;
use vstd::string::*;
use vstd::utf8::*;

verus! {

/// Index of the first `c` in `s`, or the length of `s` where it has none.
pub open spec fn first_index_of(s: Seq<char>, c: char) -> int
    decreases s.len(),
{
    if s.len() == 0 || s[0] == c {
        0
    } else {
        1 + first_index_of(s.drop_first(), c)
    }
}

/// `first_index_of` lies within `s`, no `c` stands before it, and one stands
/// at it unless it is the end of `s`.
pub proof fn lemma_first_index_of(s: Seq<char>, c: char)
    ensures
        0 <= first_index_of(s, c) <= s.len(),
        forall|j: int| 0 <= j < first_index_of(s, c) ==> s[j] != c,
        first_index_of(s, c) < s.len() ==> s[first_index_of(s, c)] == c,
    decreases s.len(),
{
    if s.len() == 0 || s[0] == c {
    } else {
        let t = s.drop_first();
        lemma_first_index_of(t, c);
        assert forall|j: int| 0 <= j < first_index_of(s, c) implies s[j] != c by {
            if j > 0 {
                assert(s[j] == t[j - 1]);
            }
        }
        assert(first_index_of(s, c) < s.len() ==> s[first_index_of(s, c)] == t[first_index_of(
            t,
            c,
        )]);
    }
}

/// The index `i` is `first_index_of(s, c)` if no `c` stands before it and one
/// stands at it, or `s` ends there.
pub proof fn lemma_first_index_is(s: Seq<char>, c: char, i: int)
    requires
        0 <= i <= s.len(),
        forall|j: int| 0 <= j < i ==> s[j] != c,
        i < s.len() ==> s[i] == c,
    ensures
        first_index_of(s, c) == i,
    decreases s.len(),
{
    if s.len() == 0 || s[0] == c {
    } else {
        let t = s.drop_first();
        assert forall|j: int| 0 <= j < i - 1 implies t[j] != c by {
            assert(t[j] == s[j + 1]);
        }
        if i < s.len() {
            assert(t[i - 1] == s[i]);
        }
        lemma_first_index_is(t, c, i - 1);
    }
}

/// Index of the first line feed of `s`, or the length of `s` where it has none.
pub open spec fn line_end(s: Seq<char>) -> int {
    first_index_of(s, '\n')
}

/// `l` without a carriage return at its end.
pub open spec fn strip_cr(l: Seq<char>) -> Seq<char> {
    if l.len() > 0 && l.last() == '\r' {
        l.drop_last()
    } else {
        l
    }
}

/// The first line of `s`: what stands before its first line feed, without a
/// carriage return just before that line feed; all of `s` where no line feed
/// is in it.
pub open spec fn first_line(s: Seq<char>) -> Seq<char> {
    if line_end(s) < s.len() {
        strip_cr(s.take(line_end(s)))
    } else {
        s
    }
}

/// What follows the first line of `s` and its line feed.
pub open spec fn after_line(s: Seq<char>) -> Seq<char> {
    if line_end(s) < s.len() {
        s.skip(line_end(s) + 1)
    } else {
        Seq::<char>::empty()
    }
}

/// The lines of `s`: split at line feeds, a carriage return before a line feed
/// belonging to the line ending. A line ending at the very end opens no
/// further line, and the empty text has no line.
pub open spec fn lines(s: Seq<char>) -> Seq<Seq<char>>
    decreases s.len(),
{
    if s.len() == 0 {
        Seq::<Seq<char>>::empty()
    } else {
        proof {
            lemma_first_index_of(s, '\n');
        }
        seq![first_line(s)] + lines(after_line(s))
    }
}

/// Splits `s` into its first line and what follows that line.
pub fn split_line(s: &str) -> (r: (&str, &str))
    ensures
        r.0@ == first_line(s@),
        r.1@ == after_line(s@),
        s@.len() > 0 ==> r.1@.len() < s@.len(),
{
    let bytes = s.as_bytes();
    let n = bytes.len();
    let mut i: usize = 0;
    let mut cr: bool = false;
    let ghost mut k: int = 0;
    proof {
        lemma_byte_pos_split(s@, 0);
        lemma_first_index_of(s@, '\n');
    }
    while i < n
        invariant
            n == bytes@.len(),
            bytes@ == encode_utf8(s@),
            0 <= k <= s@.len(),
            i == byte_pos(s@, k),
            i <= n,
            forall|j: int| 0 <= j < k ==> s@[j] != '\n',
            cr <==> k > 0 && s@[k - 1] == '\r',
            cr ==> i >= 1 && i - 1 == byte_pos(s@, k - 1),
        decreases n - i,
    {
        proof {
            lemma_byte_pos_split(s@, k);
            lemma_byte_pos_step(s@, k);
            lemma_ascii_at(s@, k, 0x0a);
            lemma_ascii_at(s@, k, 0x0d);
        }
        let b = bytes[i];
        if b == 0x0a {
            proof {
                lemma_first_index_is(s@, '\n', k);
                lemma_byte_pos_split(s@, s@.len() as int);
            }
            let line = if cr {
                substr(s, 0, i - 1, Ghost(0), Ghost(k - 1))
            } else {
                substr(s, 0, i, Ghost(0), Ghost(k))
            };
            let rest = substr(s, i + 1, n, Ghost(k + 1), Ghost(s@.len() as int));
            proof {
                if cr {
                    assert(s@.take(k).drop_last() =~= s@.subrange(0, k - 1));
                    assert(s@.take(k).last() == s@[k - 1]);
                }
                assert(s@.take(k) =~= s@.subrange(0, k));
                assert(s@.skip(k + 1) =~= s@.subrange(k + 1, s@.len() as int));
            }
            return (line, rest);
        }
        cr = b == 0x0d;
        i = i + char_width(b);
        proof {
            k = k + 1;
        }
    }
    proof {
        lemma_byte_pos_split(s@, k);
        if k < s@.len() {
            lemma_byte_pos_step(s@, k);
        }
        lemma_first_index_is(s@, '\n', s@.len() as int);
        lemma_byte_pos_split(s@, s@.len() as int);
    }
    let rest = substr(s, n, n, Ghost(s@.len() as int), Ghost(s@.len() as int));
    (s, rest)
}

/// Tests whether `s` starts with `prefix`.
pub fn starts_with(s: &str, prefix: &str) -> (r: bool)
    ensures
        r == prefix@.is_prefix_of(s@),
{
    let a = s.as_bytes();
    let b = prefix.as_bytes();
    proof {
        lemma_prefix_bytes(prefix@, s@);
    }
    if a.len() < b.len() {
        return false;
    }
    let mut i: usize = 0;
    while i < b.len()
        invariant
            i <= b@.len() <= a@.len(),
            forall|j: int| 0 <= j < i ==> a@[j] == b@[j],
            b@.is_prefix_of(a@) <==> prefix@.is_prefix_of(s@),
        decreases b@.len() - i,
    {
        if a[i] != b[i] {
            proof {
                assert(a@.subrange(0, b@.len() as int)[i as int] == a@[i as int]);
            }
            return false;
        }
        i = i + 1;
    }
    proof {
        assert(b@ =~= a@.subrange(0, b@.len() as int));
    }
    true
}

/// What follows `prefix` in `s`, where `s` starts with it.
pub fn strip_prefix<'a>(s: &'a str, prefix: &str) -> (r: Option<&'a str>)
    ensures
        r is Some <==> prefix@.is_prefix_of(s@),
        r matches Some(rest) ==> rest@ == s@.skip(prefix@.len() as int),
{
    if starts_with(s, prefix) {
        let ghost m = prefix@.len() as int;
        proof {
            assert(s@.take(m) =~= prefix@);
            lemma_byte_pos_split(s@, s@.len() as int);
            assert(s@.skip(m) =~= s@.subrange(m, s@.len() as int));
        }
        let from = prefix.as_bytes().len();
        let to = s.as_bytes().len();
        Some(substr(s, from, to, Ghost(m), Ghost(s@.len() as int)))
    } else {
        None
    }
}

/// Tests whether two texts are the same.
pub fn same_text(a: &str, b: &str) -> (r: bool)
    ensures
        r == (a@ == b@),
{
    proof {
        if a@.len() == b@.len() && b@.is_prefix_of(a@) {
            assert(a@ =~= b@);
        }
        if a@ == b@ {
            assert(b@ =~= a@.subrange(0, b@.len() as int));
        }
        if a.spec_bytes().len() == b.spec_bytes().len() && b@.is_prefix_of(a@) {
            lemma_prefix_bytes(b@, a@);
            assert(a.spec_bytes() =~= b.spec_bytes());
            lemma_encode_injective(a@, b@);
        }
    }
    a.as_bytes().len() == b.as_bytes().len() && starts_with(a, b)
}

/// The lower-case form of an ASCII upper-case letter's value; any other value
/// as it is.
pub open spec fn ascii_lower_scalar(v: u32) -> u32 {
    if 0x41 <= v <= 0x5a {
        (v + 0x20) as u32
    } else {
        v
    }
}

/// Whether `s` ends with `ext`, an ASCII upper-case letter of `s` counting as
/// its lower-case form.
pub open spec fn ends_with_lowered(s: Seq<char>, ext: Seq<char>) -> bool {
    &&& s.len() >= ext.len()
    &&& forall|j: int|
        0 <= j < ext.len() ==> ascii_lower_scalar(s[s.len() - ext.len() + j] as u32)
            == (#[trigger] ext[j]) as u32
}

/// Tests whether `s` ends with the ASCII text `ext`, an ASCII upper-case letter
/// of `s` counting as its lower-case form.
pub(crate) fn ends_with_ascii_lowered(s: &str, ext: &str) -> (r: bool)
    requires
        forall|j: int| 0 <= j < ext@.len() ==> ((#[trigger] ext@[j]) as u32) < 0x80,
    ensures
        r == ends_with_lowered(s@, ext@),
{
    let a = s.as_bytes();
    let e = ext.as_bytes();
    let ghost m = ext@.len() as int;
    proof {
        lemma_ascii_suffix_chars(ext@, m);
        lemma_byte_pos_split(ext@, 0);
        assert(e@.len() == m);
        if ends_with_lowered(s@, ext@) {
            assert forall|i: int| s@.len() - m <= i < s@.len() implies ((#[trigger] s@[i]) as u32)
                < 0x80 by {
                let j = i - (s@.len() - m);
                assert(ascii_lower_scalar(s@[s@.len() - m + j] as u32) == ext@[j] as u32);
            }
            lemma_ascii_suffix_chars(s@, m);
        }
    }
    if a.len() < e.len() {
        return false;
    }
    let off = a.len() - e.len();
    let mut j: usize = 0;
    while j < e.len()
        invariant
            a@ == encode_utf8(s@),
            e@ == encode_utf8(ext@),
            e@.len() == m,
            ext@.len() == m,
            off + m == a@.len(),
            a@.len() <= usize::MAX,
            j <= m,
            forall|t: int| 0 <= t < ext@.len() ==> ((#[trigger] ext@[t]) as u32) < 0x80,
            forall|t: int| 0 <= t < m ==> (#[trigger] e@[t]) as u32 == ext@[t] as u32,
            forall|t: int|
                off <= t < off + j ==> (#[trigger] a@[t]) < 0x80 && ascii_lower_scalar(
                    a@[t] as u32,
                ) == e@[t - off] as u32,
            ends_with_lowered(s@, ext@) ==> s@.len() >= m && forall|t: int|
                off <= t < off + m ==> (#[trigger] a@[t]) as u32 == s@[t - a@.len()
                    + s@.len()] as u32,
        decreases m - j,
    {
        let x = a[off + j];
        let y = e[j];
        let lowered = if 0x41 <= x && x <= 0x5a {
            x + 0x20
        } else {
            x
        };
        if x >= 0x80 || lowered != y {
            proof {
                if ends_with_lowered(s@, ext@) {
                    let c = s@[s@.len() - m + j];
                    assert(a@[off + j] as u32 == c as u32);
                    assert(e@[j as int] as u32 == ext@[j as int] as u32);
                    assert(ascii_lower_scalar(c as u32) == ext@[j as int] as u32);
                    assert(false);
                }
            }
            return false;
        }
        j = j + 1;
    }
    proof {
        assert forall|t: int| a@.len() - m <= t < a@.len() implies #[trigger] a@[t] < 0x80 by {}
        lemma_ascii_suffix_bytes(s@, m);
        assert forall|t: int| 0 <= t < m implies ascii_lower_scalar(
            s@[s@.len() - m + t] as u32,
        ) == (#[trigger] ext@[t]) as u32 by {
            assert(a@[off + t] < 0x80);
            assert(e@[t] as u32 == ext@[t] as u32);
            assert(s@[s@.len() - m + t] as u32 == a@[off + t] as u32);
        }
    }
    true
}

/// What `str::to_lowercase` makes of a text: its lower-case form by the
/// rules of Unicode.
pub uninterp spec fn lowercase(s: Seq<char>) -> Seq<char>;

/// The lower-case form of `s`, from `str::to_lowercase` of the standard
/// library. The contract claims only that the result is a function of `s`.
#[verifier::external_body]
pub(crate) fn to_lowercase(s: &str) -> (r: String)
    ensures
        r@ == lowercase(s@),
{
    s.to_lowercase()
}

/// Number of bytes of `s`.
pub fn byte_len(s: &str) -> (n: usize)
    ensures
        n == utf8_len(s@),
{
    s.as_bytes().len()
}

/// Tests whether the character `c`, which is ASCII, occurs in `s`.
pub(crate) fn contains_ascii(s: &str, c: u8) -> (r: bool)
    requires
        c < 0x80,
    ensures
        r == s@.contains(c as char),
{
    let bytes = s.as_bytes();
    let n = bytes.len();
    let mut i: usize = 0;
    let ghost mut k: int = 0;
    proof {
        lemma_byte_pos_split(s@, 0);
    }
    while i < n
        invariant
            n == bytes@.len(),
            bytes@ == encode_utf8(s@),
            0 <= k <= s@.len(),
            i == byte_pos(s@, k),
            i <= n,
            c < 0x80,
            forall|j: int| 0 <= j < k ==> s@[j] != c as char,
        decreases n - i,
    {
        proof {
            lemma_byte_pos_split(s@, k);
            lemma_byte_pos_step(s@, k);
            lemma_ascii_at(s@, k, c);
        }
        let b = bytes[i];
        if b == c {
            return true;
        }
        i = i + char_width(b);
        proof {
            k = k + 1;
        }
    }
    proof {
        lemma_byte_pos_split(s@, k);
        if k < s@.len() {
            lemma_byte_pos_step(s@, k);
        }
    }
    false
}

/// Splits `s` at the first `c`, an ASCII character: what stands before it and
/// what stands after it. `None` where `s` holds no `c`.
pub(crate) fn split_at_ascii(s: &str, c: u8) -> (r: Option<(&str, &str)>)
    requires
        c < 0x80,
    ensures
        match r {
            Some((before, after)) => {
                &&& first_index_of(s@, c as char) < s@.len()
                &&& before@ == s@.take(first_index_of(s@, c as char))
                &&& after@ == s@.skip(first_index_of(s@, c as char) + 1)
            },
            None => first_index_of(s@, c as char) == s@.len(),
        },
{
    let bytes = s.as_bytes();
    let n = bytes.len();
    let mut i: usize = 0;
    let ghost mut k: int = 0;
    proof {
        lemma_byte_pos_split(s@, 0);
    }
    while i < n
        invariant
            n == bytes@.len(),
            bytes@ == encode_utf8(s@),
            0 <= k <= s@.len(),
            i == byte_pos(s@, k),
            i <= n,
            c < 0x80,
            forall|j: int| 0 <= j < k ==> s@[j] != c as char,
        decreases n - i,
    {
        proof {
            lemma_byte_pos_split(s@, k);
            lemma_byte_pos_step(s@, k);
            lemma_ascii_at(s@, k, c);
        }
        let b = bytes[i];
        if b == c {
            proof {
                lemma_byte_pos_split(s@, s@.len() as int);
                lemma_first_index_is(s@, c as char, k);
            }
            let before = substr(s, 0, i, Ghost(0), Ghost(k));
            let after = substr(s, i + 1, n, Ghost(k + 1), Ghost(s@.len() as int));
            proof {
                assert(before@ =~= s@.take(k));
                assert(after@ =~= s@.skip(k + 1));
            }
            return Some((before, after));
        }
        i = i + char_width(b);
        proof {
            k = k + 1;
        }
    }
    proof {
        lemma_byte_pos_split(s@, k);
        if k < s@.len() {
            lemma_byte_pos_step(s@, k);
        }
        lemma_first_index_is(s@, c as char, s@.len() as int);
    }
    None
}

/// How many characters at the start of `s` take no more than `limit` bytes
/// together.
pub open spec fn chars_within(s: Seq<char>, limit: nat) -> nat
    decreases s.len(),
{
    if s.len() == 0 || encode_scalar(s[0] as u32).len() > limit {
        0
    } else {
        1 + chars_within(s.drop_first(), (limit - encode_scalar(s[0] as u32).len()) as nat)
    }
}

/// The longest text that `s` starts with and that takes no more than `limit`
/// bytes.
pub open spec fn prefix_within(s: Seq<char>, limit: nat) -> Seq<char> {
    s.take(chars_within(s, limit) as int)
}

/// The longest text that `s` starts with and that takes no more than `limit`
/// bytes.
pub fn truncated(s: &str, limit: usize) -> (r: &str)
    ensures
        r@ == prefix_within(s@, limit as nat),
{
    let bytes = s.as_bytes();
    let n = bytes.len();
    let mut i: usize = 0;
    let ghost mut k: int = 0;
    proof {
        lemma_byte_pos_split(s@, 0);
        assert(s@.skip(0) =~= s@);
    }
    while i < n
        invariant
            n == bytes@.len(),
            bytes@ == encode_utf8(s@),
            0 <= k <= s@.len(),
            i == byte_pos(s@, k),
            i <= n,
            i <= limit,
            chars_within(s@, limit as nat) == k + chars_within(s@.skip(k), (limit - i) as nat),
        decreases n - i,
    {
        proof {
            lemma_byte_pos_split(s@, k);
            lemma_byte_pos_step(s@, k);
            assert(s@.skip(k)[0] == s@[k]);
            assert(s@.skip(k).drop_first() =~= s@.skip(k + 1));
        }
        let w = char_width(bytes[i]);
        if w > limit - i {
            return substr(s, 0, i, Ghost(0), Ghost(k));
        }
        i = i + w;
        proof {
            k = k + 1;
        }
    }
    proof {
        lemma_byte_pos_split(s@, k);
        if k < s@.len() {
            lemma_byte_pos_step(s@, k);
        }
        assert(s@.take(k) =~= s@);
    }
    s
}

} // verus!
