//! What ties the bytes of a string to its characters: where in the UTF-8
//! encoding each character stands, and slicing at those places.

use vstd::prelude::*;
use vstd::string::*;
use vstd::utf8::*;

verus! {

/// Number of bytes that the first `k` characters of `cs` take in UTF-8.
pub open spec fn byte_pos(cs: Seq<char>, k: int) -> int {
    encode_utf8(cs.take(k)).len() as int
}

/// Number of bytes of the character whose encoding starts with the byte `lead`.
pub open spec fn lead_width(lead: u8) -> int {
    if lead < 0x80 {
        1
    } else if lead < 0xe0 {
        2
    } else if lead < 0xf0 {
        3
    } else {
        4
    }
}

/// The UTF-8 encoding of a concatenation is the concatenation of the encodings.
pub proof fn lemma_encode_concat(a: Seq<char>, b: Seq<char>)
    ensures
        encode_utf8(a + b) == encode_utf8(a) + encode_utf8(b),
    decreases a.len(),
{
    if a.len() == 0 {
        assert(a + b =~= b);
        assert(encode_utf8(a) + encode_utf8(b) =~= encode_utf8(b));
    } else {
        lemma_encode_concat(a.drop_first(), b);
        assert((a + b).drop_first() =~= a.drop_first() + b);
        assert(encode_utf8(a + b) =~= encode_utf8(a) + encode_utf8(b));
    }
}

/// Two character sequences with the same encoding are the same.
pub proof fn lemma_encode_injective(a: Seq<char>, b: Seq<char>)
    requires
        encode_utf8(a) == encode_utf8(b),
    ensures
        a == b,
{
    encode_utf8_decode_utf8(a);
    encode_utf8_decode_utf8(b);
}

/// Two characters with the same scalar value are the same.
pub proof fn lemma_char_eq(c: char, d: char)
    requires
        c as u32 == d as u32,
    ensures
        c == d,
{
    char_u32_cast(c, c as u32);
    char_u32_cast(d, d as u32);
}

/// The encoding of one character is the encoding of its scalar value.
pub proof fn lemma_encode_single(c: char)
    ensures
        encode_utf8(seq![c]) == encode_scalar(c as u32),
        1 <= encode_scalar(c as u32).len() <= 4,
{
    let s = seq![c];
    assert(s.drop_first() =~= Seq::<char>::empty());
    assert(encode_utf8(s.drop_first()) =~= Seq::<u8>::empty());
    assert(encode_utf8(s) =~= encode_scalar(c as u32));
}

/// What the first byte of a non-empty encoding tells of the first character.
pub proof fn lemma_first_char(cs: Seq<char>)
    requires
        cs.len() > 0,
    ensures
        encode_utf8(cs).len() >= lead_width(encode_utf8(cs)[0]),
        encode_scalar(cs[0] as u32).len() == lead_width(encode_utf8(cs)[0]),
        encode_utf8(cs) == encode_scalar(cs[0] as u32) + encode_utf8(cs.drop_first()),
        !is_continuation_byte(encode_utf8(cs)[0]),
        encode_utf8(cs)[0] < 0x80 <==> (cs[0] as u32) < 0x80,
        encode_utf8(cs)[0] < 0x80 ==> encode_utf8(cs)[0] as u32 == cs[0] as u32,
        decode_first_scalar(encode_utf8(cs)) == cs[0] as u32,
        valid_first_scalar(encode_utf8(cs)),
        forall|j: int|
            1 <= j < lead_width(encode_utf8(cs)[0]) ==> is_continuation_byte(
                #[trigger] encode_utf8(cs)[j],
            ),
{
    let b = encode_utf8(cs);
    encode_utf8_first_scalar(cs);
    let b0 = b[0];
    assert(b0 < 0x80 ==> (b0 & 0x7f) as u32 == b0 as u32) by (bit_vector);
    let v = cs[0] as u32;
    assert(v < 0x80 ==> ((v & 0x7f) as u8) < 0x80) by (bit_vector);
    assert(0x80 <= v <= 0x7ff ==> (0xC0u8 | ((v >> 6) & 0x1F) as u8) >= 0x80) by (bit_vector);
    assert(0x800 <= v <= 0xffff ==> (0xE0u8 | ((v >> 12) & 0x0F) as u8) >= 0x80) by (bit_vector);
    assert(0x10000 <= v <= 0x10ffff ==> (0xF0u8 | ((v >> 18) & 0x7) as u8) >= 0x80)
        by (bit_vector);
}

/// The byte position of a character index lies inside the encoding, on a
/// character boundary, and parts the encoding as the index parts the characters.
pub proof fn lemma_byte_pos_split(cs: Seq<char>, k: int)
    requires
        0 <= k <= cs.len(),
    ensures
        0 <= byte_pos(cs, k) <= encode_utf8(cs).len(),
        k == 0 ==> byte_pos(cs, k) == 0,
        k == cs.len() ==> byte_pos(cs, k) == encode_utf8(cs).len(),
        is_char_boundary(encode_utf8(cs), byte_pos(cs, k)),
        encode_utf8(cs).subrange(0, byte_pos(cs, k)) == encode_utf8(cs.take(k)),
        encode_utf8(cs).subrange(byte_pos(cs, k), encode_utf8(cs).len() as int) == encode_utf8(
            cs.skip(k),
        ),
{
    let b = encode_utf8(cs);
    let p = byte_pos(cs, k);
    lemma_encode_concat(cs.take(k), cs.skip(k));
    assert(cs.take(k) + cs.skip(k) =~= cs);
    assert(b.subrange(0, p) =~= encode_utf8(cs.take(k)));
    assert(b.subrange(p, b.len() as int) =~= encode_utf8(cs.skip(k)));
    if k == 0 {
        assert(cs.take(0) =~= Seq::<char>::empty());
    }
    if k == cs.len() {
        assert(cs.take(k) =~= cs);
    }
    encode_utf8_valid_utf8(cs);
    if p == b.len() {
        is_char_boundary_start_end_of_seq(b);
    } else {
        if k == cs.len() {
            assert(false);
        }
        lemma_first_char(cs.skip(k));
        assert(b[p] == encode_utf8(cs.skip(k))[0]);
        is_char_boundary_iff_not_is_continuation_byte(b, p);
    }
}

/// One character further, the byte position advances by that character's width,
/// which its first byte gives.
pub proof fn lemma_byte_pos_step(cs: Seq<char>, k: int)
    requires
        0 <= k < cs.len(),
    ensures
        byte_pos(cs, k) < encode_utf8(cs).len(),
        byte_pos(cs, k + 1) == byte_pos(cs, k) + lead_width(encode_utf8(cs)[byte_pos(cs, k)]),
        byte_pos(cs, k + 1) <= encode_utf8(cs).len(),
        !is_continuation_byte(encode_utf8(cs)[byte_pos(cs, k)]),
        encode_utf8(cs)[byte_pos(cs, k)] < 0x80 <==> (cs[k] as u32) < 0x80,
        encode_utf8(cs)[byte_pos(cs, k)] < 0x80 ==> encode_utf8(cs)[byte_pos(cs, k)] as u32
            == cs[k] as u32,
        encode_utf8(cs).subrange(byte_pos(cs, k), byte_pos(cs, k + 1)) == encode_scalar(
            cs[k] as u32,
        ),
        forall|j: int|
            byte_pos(cs, k) < j < byte_pos(cs, k + 1) ==> is_continuation_byte(
                #[trigger] encode_utf8(cs)[j],
            ),
{
    let b = encode_utf8(cs);
    let p = byte_pos(cs, k);
    lemma_byte_pos_split(cs, k);
    lemma_byte_pos_split(cs, k + 1);
    let rest = cs.skip(k);
    lemma_first_char(rest);
    assert(rest[0] == cs[k]);
    assert(cs.take(k + 1) =~= cs.take(k) + seq![cs[k]]);
    lemma_encode_concat(cs.take(k), seq![cs[k]]);
    lemma_encode_single(cs[k]);
    assert(b[p] == encode_utf8(rest)[0]);
    let e = encode_scalar(cs[k] as u32);
    let q = byte_pos(cs, k + 1);
    assert(b.subrange(0, q) == encode_utf8(cs.take(k)) + e);
    assert(b.subrange(p, q) =~= b.subrange(0, q).subrange(p, q));
    assert((encode_utf8(cs.take(k)) + e).subrange(p, q) =~= e);
    assert forall|j: int| p < j < q implies is_continuation_byte(#[trigger] b[j]) by {
        assert(b[j] == encode_utf8(rest)[j - p]);
    }
}

/// The part of `s` between two character positions, each given by its byte offset.
pub(crate) fn substr<'a>(
    s: &'a str,
    from: usize,
    to: usize,
    Ghost(kf): Ghost<int>,
    Ghost(kt): Ghost<int>,
) -> (r: &'a str)
    requires
        0 <= kf <= kt <= s@.len(),
        from == byte_pos(s@, kf),
        to == byte_pos(s@, kt),
    ensures
        r@ == s@.subrange(kf, kt),
{
    proof {
        lemma_byte_pos_split(s@, kt);
    }
    let (head, _) = s.split_at(to);
    proof {
        lemma_encode_injective(head@, s@.take(kt));
        assert(head@.take(kf) =~= s@.take(kf));
        lemma_byte_pos_split(head@, kf);
    }
    let (_, r) = head.split_at(from);
    proof {
        lemma_encode_injective(r@, head@.skip(kf));
        assert(head@.skip(kf) =~= s@.subrange(kf, kt));
    }
    r
}

/// Width in bytes of the character whose encoding starts with `lead`.
pub(crate) fn char_width(lead: u8) -> (w: usize)
    ensures
        w == lead_width(lead),
        1 <= w <= 4,
{
    if lead < 0x80 {
        1
    } else if lead < 0xe0 {
        2
    } else if lead < 0xf0 {
        3
    } else {
        4
    }
}

/// The scalar value of the character of `s` that starts at byte `i`.
pub(crate) fn scalar_at(s: &str, i: usize, Ghost(k): Ghost<int>) -> (v: u32)
    requires
        0 <= k < s@.len(),
        i == byte_pos(s@, k),
    ensures
        v == s@[k] as u32,
{
    let bytes = s.as_bytes();
    proof {
        lemma_byte_pos_split(s@, k);
        lemma_byte_pos_step(s@, k);
        lemma_first_char(s@.skip(k));
        assert(s@.skip(k)[0] == s@[k]);
    }
    let ghost tail = bytes@.subrange(i as int, bytes@.len() as int);
    assert(tail == encode_utf8(s@.skip(k)));
    assert(tail[0] == bytes@[i as int]);
    let b0 = bytes[i];
    if b0 < 0x80 {
        (b0 & 0x7f) as u32
    } else if b0 < 0xe0 {
        assert(tail[1] == bytes@[i + 1]);
        let b1 = bytes[i + 1];
        (((b0 & 0x1f) as u32) << 6) | ((b1 & 0x3f) as u32)
    } else if b0 < 0xf0 {
        assert(tail[1] == bytes@[i + 1]);
        assert(tail[2] == bytes@[i + 2]);
        let b1 = bytes[i + 1];
        let b2 = bytes[i + 2];
        (((b0 & 0x0f) as u32) << 12) | (((b1 & 0x3f) as u32) << 6) | ((b2 & 0x3f) as u32)
    } else {
        assert(tail[1] == bytes@[i + 1]);
        assert(tail[2] == bytes@[i + 2]);
        assert(tail[3] == bytes@[i + 3]);
        let b1 = bytes[i + 1];
        let b2 = bytes[i + 2];
        let b3 = bytes[i + 3];
        (((b0 & 0x07) as u32) << 18) | (((b1 & 0x3f) as u32) << 12) | (((b2 & 0x3f) as u32) << 6)
            | ((b3 & 0x3f) as u32)
    }
}

/// What the byte at a character's position tells of an ASCII character: the
/// byte is `x` exactly when the character is.
pub proof fn lemma_ascii_at(cs: Seq<char>, k: int, x: u8)
    requires
        0 <= k < cs.len(),
        x < 0x80,
    ensures
        encode_utf8(cs)[byte_pos(cs, k)] == x <==> cs[k] == x as char,
{
    lemma_byte_pos_step(cs, k);
    if encode_utf8(cs)[byte_pos(cs, k)] == x {
        lemma_char_eq(cs[k], x as char);
    }
}

/// A text starts with another exactly when its encoding starts with the
/// other's encoding.
pub proof fn lemma_prefix_bytes(p: Seq<char>, s: Seq<char>)
    ensures
        encode_utf8(p).is_prefix_of(encode_utf8(s)) <==> p.is_prefix_of(s),
    decreases p.len(),
{
    let bp = encode_utf8(p);
    let bs = encode_utf8(s);
    if p.is_prefix_of(s) {
        assert(s =~= p + s.skip(p.len() as int));
        lemma_encode_concat(p, s.skip(p.len() as int));
        assert(bp =~= bs.subrange(0, bp.len() as int));
    }
    if bp.is_prefix_of(bs) {
        if p.len() == 0 {
            assert(p =~= s.subrange(0, 0));
        } else {
            lemma_first_char(p);
            assert(bs.len() > 0);
            if s.len() == 0 {
                assert(false);
            }
            lemma_first_char(s);
            let w = lead_width(bp[0]);
            assert forall|j: int| 0 <= j < bp.len() implies bp[j] == bs[j] by {
                assert(bs.subrange(0, bp.len() as int)[j] == bs[j]);
            }
            assert(p[0] as u32 == s[0] as u32);
            lemma_char_eq(p[0], s[0]);
            let pt = p.drop_first();
            let st = s.drop_first();
            assert(encode_utf8(pt) =~= bp.skip(w));
            assert(encode_utf8(st) =~= bs.skip(w));
            assert(encode_utf8(pt) =~= encode_utf8(st).subrange(0, encode_utf8(pt).len() as int));
            lemma_prefix_bytes(pt, st);
            assert(p =~= s.subrange(0, p.len() as int)) by {
                assert forall|j: int| 0 <= j < p.len() implies p[j] == s[j] by {
                    if j > 0 {
                        assert(pt[j - 1] == p[j]);
                        assert(st.subrange(0, pt.len() as int)[j - 1] == st[j - 1]);
                    }
                }
            }
        }
    }
}

/// Where the last `m` bytes of an encoding are ASCII, they are the last `m`
/// characters, one byte each.
pub proof fn lemma_ascii_suffix_bytes(cs: Seq<char>, m: int)
    requires
        0 <= m <= encode_utf8(cs).len(),
        forall|i: int|
            encode_utf8(cs).len() - m <= i < encode_utf8(cs).len() ==> #[trigger] encode_utf8(
                cs,
            )[i] < 0x80,
    ensures
        m <= cs.len(),
        byte_pos(cs, cs.len() - m) == encode_utf8(cs).len() - m,
        forall|i: int|
            cs.len() - m <= i < cs.len() ==> (#[trigger] cs[i]) as u32 == encode_utf8(
                cs,
            )[i - cs.len() + encode_utf8(cs).len()] as u32,
    decreases m,
{
    let b = encode_utf8(cs);
    let blen = b.len() as int;
    if m == 0 {
        lemma_byte_pos_split(cs, cs.len() as int);
    } else {
        if cs.len() == 0 {
            assert(false);
        }
        let last = cs.len() - 1;
        lemma_byte_pos_split(cs, last);
        lemma_byte_pos_split(cs, cs.len() as int);
        lemma_byte_pos_step(cs, last);
        let p = byte_pos(cs, last);
        assert(b[blen - 1] < 0x80);
        assert(p == blen - 1);
        let ct = cs.take(last);
        assert(encode_utf8(ct) == b.subrange(0, p));
        let bt = encode_utf8(ct);
        assert forall|i: int| bt.len() - (m - 1) <= i < bt.len() implies #[trigger] bt[i]
            < 0x80 by {
            assert(b.subrange(0, p)[i] == b[i]);
        }
        lemma_ascii_suffix_bytes(ct, m - 1);
        assert(cs.take(cs.len() - m) =~= ct.take(ct.len() - (m - 1)));
        assert forall|i: int| cs.len() - m <= i < cs.len() implies (#[trigger] cs[i]) as u32
            == b[i - cs.len() + blen] as u32 by {
            if i < last {
                assert(ct[i] == cs[i]);
                assert(b.subrange(0, p)[i - cs.len() + blen] == b[i - cs.len() + blen]);
            }
        }
    }
}

/// Where the last `m` characters of a text are ASCII, they are the last `m`
/// bytes of its encoding.
pub proof fn lemma_ascii_suffix_chars(cs: Seq<char>, m: int)
    requires
        0 <= m <= cs.len(),
        forall|i: int| cs.len() - m <= i < cs.len() ==> ((#[trigger] cs[i]) as u32) < 0x80,
    ensures
        m <= encode_utf8(cs).len(),
        byte_pos(cs, cs.len() - m) == encode_utf8(cs).len() - m,
        forall|i: int|
            encode_utf8(cs).len() - m <= i < encode_utf8(cs).len() ==> (#[trigger] encode_utf8(
                cs,
            )[i]) as u32 == cs[i - encode_utf8(cs).len() + cs.len()] as u32,
    decreases m,
{
    let b = encode_utf8(cs);
    let blen = b.len() as int;
    if m == 0 {
        lemma_byte_pos_split(cs, cs.len() as int);
    } else {
        let last = cs.len() - 1;
        lemma_byte_pos_split(cs, last);
        lemma_byte_pos_split(cs, cs.len() as int);
        lemma_byte_pos_step(cs, last);
        let p = byte_pos(cs, last);
        assert((cs[last] as u32) < 0x80);
        assert(p == blen - 1);
        let ct = cs.take(last);
        assert(encode_utf8(ct) == b.subrange(0, p));
        assert forall|i: int| ct.len() - (m - 1) <= i < ct.len() implies ((#[trigger] ct[i]) as u32)
            < 0x80 by {
            assert(ct[i] == cs[i]);
        }
        lemma_ascii_suffix_chars(ct, m - 1);
        assert(cs.take(cs.len() - m) =~= ct.take(ct.len() - (m - 1)));
        assert forall|i: int| blen - m <= i < blen implies (#[trigger] b[i]) as u32 == cs[i - blen
            + cs.len()] as u32 by {
            if i < blen - 1 {
                assert(b.subrange(0, p)[i] == b[i]);
                assert(encode_utf8(ct)[i] == b[i]);
                assert(ct[i - p + ct.len()] == cs[i - blen + cs.len()]);
            }
        }
    }
}

/// Number of bytes that `s` takes in UTF-8.
pub open spec fn utf8_len(s: Seq<char>) -> nat {
    encode_utf8(s).len()
}

} // verus!
