//! Small text utilities shared by the codec modules: byte/character
//! conversions backed by the UTF-8 model, and string comparison.

use vstd::prelude::*;

verus! {

use vstd::utf8::{valid_utf8, decode_utf8, encode_utf8, is_ascii_chars};
use vstd::utf8::{is_ascii_chars_encode_utf8, encode_utf8_valid_utf8, encode_utf8_decode_utf8};
use vstd::string::StringExecFns;

/// Relies on `String::from_utf8`: it succeeds exactly on valid UTF-8 input
/// and returns the string those bytes encode.
#[verifier::external_body]
pub(crate) fn string_from_utf8(bytes: Vec<u8>) -> (r: Option<String>)
    ensures
        r is Some <==> valid_utf8(bytes@),
        r matches Some(s) ==> s@ == decode_utf8(bytes@),
{
    match String::from_utf8(bytes) {
        Ok(s) => Some(s),
        Err(_) => None,
    }
}

/// Compares two string slices by value.
pub fn str_eq(a: &str, b: &str) -> (r: bool)
    ensures
        r == (a@ == b@),
{
    let sa = String::from_str(a);
    let sb = String::from_str(b);
    sa == sb
}

/// The characters an all-ASCII byte sequence spells.
pub open spec fn ascii_chars_of(b: Seq<u8>) -> Seq<char> {
    Seq::new(b.len(), |i: int| b[i] as char)
}

/// Every byte below 0x80.
pub open spec fn all_ascii(b: Seq<u8>) -> bool {
    forall|i: int| 0 <= i < b.len() ==> #[trigger] b[i] < 0x80
}

/// An all-ASCII byte sequence is valid UTF-8 and decodes byte for byte.
pub proof fn lemma_ascii_decode(b: Seq<u8>)
    requires
        all_ascii(b),
    ensures
        valid_utf8(b),
        decode_utf8(b) == ascii_chars_of(b),
        encode_utf8(ascii_chars_of(b)) == b,
{
    let chars = ascii_chars_of(b);
    assert forall|i: int| 0 <= i < chars.len() implies '\0' <= #[trigger] chars[i] <= '\u{7f}' by {
        assert(b[i] < 0x80);
        assert(chars[i] == b[i] as char);
    }
    assert(is_ascii_chars(chars));
    is_ascii_chars_encode_utf8(chars);
    assert forall|i: int| 0 <= i < chars.len() implies encode_utf8(chars)[i] == b[i] by {
        assert(chars[i] as u8 == encode_utf8(chars)[i]);
        assert((b[i] as char) as u8 == b[i]);
    }
    assert(encode_utf8(chars) =~= b);
    encode_utf8_valid_utf8(chars);
    encode_utf8_decode_utf8(chars);
}

/// Turns an all-ASCII byte buffer into the string it spells.
pub fn ascii_to_string(bytes: Vec<u8>) -> (r: String)
    requires
        all_ascii(bytes@),
    ensures
        r@ == ascii_chars_of(bytes@),
{
    proof {
        lemma_ascii_decode(bytes@);
    }
    match string_from_utf8(bytes) {
        Some(s) => s,
        None => String::new(),
    }
}

/// Renders `n` as its ASCII decimal digits.
pub fn render_u64(n: u64) -> (r: Vec<u8>)
    ensures
        r@ == crate::frame::dec_digits(n as nat),
{
    let mut rev: Vec<u8> = Vec::new();
    let mut m: u64 = n;
    while m >= 10
        invariant
            crate::frame::dec_digits(n as nat) =~= crate::frame::dec_digits(m as nat)
                + rev@.reverse(),
        decreases m,
    {
        let d: u8 = (m % 10) as u8;
        rev.push(0x30 + d);
        proof {
            assert(crate::frame::dec_digits(m as nat) =~= crate::frame::dec_digits(
                (m as nat) / 10,
            ) + seq![(0x30 + (m as nat) % 10) as u8]);
            assert(rev@.reverse() =~= seq![(0x30 + (m as nat) % 10) as u8]
                + rev@.drop_last().reverse());
            assert(crate::frame::dec_digits(n as nat) =~= crate::frame::dec_digits(
                ((m / 10) as nat),
            ) + rev@.reverse());
        }
        m = m / 10;
    }
    let d: u8 = (m % 10) as u8;
    rev.push(0x30 + d);
    proof {
        assert(rev@.reverse() =~= seq![(0x30 + (m as nat)) as u8] + rev@.drop_last().reverse());
        assert(crate::frame::dec_digits(n as nat) =~= rev@.reverse());
    }
    let mut r: Vec<u8> = Vec::new();
    let mut i: usize = rev.len();
    while i > 0
        invariant
            i <= rev.len(),
            r@ =~= rev@.subrange(i as int, rev@.len() as int).reverse(),
        decreases i,
    {
        i = i - 1;
        let b = rev[i];
        r.push(b);
        proof {
            assert(rev@.subrange(i as int, rev@.len() as int).reverse() =~= rev@.subrange(
                i + 1,
                rev@.len() as int,
            ).reverse().push(rev@[i as int]));
        }
    }
    proof {
        assert(rev@.subrange(0, rev@.len() as int) =~= rev@);
        assert(r@ =~= crate::frame::dec_digits(n as nat));
    }
    r
}

/// Index of the first occurrence of `c`, if any.
pub open spec fn first_char_idx(s: Seq<char>, c: char) -> Option<int>
    decreases s.len(),
{
    if s.len() == 0 {
        None
    } else if s[0] == c {
        Some(0int)
    } else {
        match first_char_idx(s.drop_first(), c) {
            Some(i) => Some(i + 1),
            None => None,
        }
    }
}

/// Index of the first occurrence of byte `x`, if any.
pub open spec fn first_byte_idx(b: Seq<u8>, x: u8) -> Option<int>
    decreases b.len(),
{
    if b.len() == 0 {
        None
    } else if b[0] == x {
        Some(0int)
    } else {
        match first_byte_idx(b.drop_first(), x) {
            Some(i) => Some(i + 1),
            None => None,
        }
    }
}

/// The single byte an ASCII character encodes to.
pub open spec fn ascii_byte(c: char) -> u8 {
    vstd::utf8::encode_scalar(c as u32)[0]
}

/// Finding an ASCII character in a string and finding its byte in the
/// string's UTF-8 form agree: both fail together, or both hit the same
/// occurrence, splitting text and bytes alike.
pub proof fn lemma_ascii_find(s: Seq<char>, c: char)
    requires
        c <= '\u{7f}',
    ensures
        match (first_char_idx(s, c), first_byte_idx(encode_utf8(s), ascii_byte(c))) {
            (None, None) => true,
            (Some(k), Some(p)) => {
                &&& 0 <= k < s.len() && s[k] == c
                &&& 0 <= p < encode_utf8(s).len()
                &&& encode_utf8(s.take(k)) == encode_utf8(s).take(p)
                &&& encode_utf8(s.skip(k + 1)) == encode_utf8(s).skip(p + 1)
            },
            _ => false,
        },
    decreases s.len(),
{
    let eb = encode_utf8(s);
    let x = ascii_byte(c);
    vstd::utf8::char_is_scalar(c);
    assert(vstd::utf8::encode_scalar(c as u32) =~= seq![x]) by {
        lemma_ascii_u32(c);
        assert(vstd::utf8::has_width_1_encoding(c as u32));
    }
    if s.len() == 0 {
        assert(eb =~= Seq::<u8>::empty());
    } else {
        let c0 = s[0];
        let f = vstd::utf8::encode_scalar(c0 as u32);
        vstd::utf8::char_is_scalar(c0);
        lemma_scalar_bytes(c0);
        assert(eb == f + encode_utf8(s.drop_first()));
        if c0 == c {
            assert(f =~= seq![x]);
            assert(eb[0] == x);
            assert(first_char_idx(s, c) == Some(0int));
            assert(first_byte_idx(eb, x) == Some(0int));
            assert(s.take(0) =~= Seq::<char>::empty());
            assert(encode_utf8(s.take(0)) =~= Seq::<u8>::empty());
            assert(eb.take(0) =~= Seq::<u8>::empty());
            assert(s.skip(1) =~= s.drop_first());
            assert(eb.skip(1) =~= encode_utf8(s.drop_first()));
        } else {
            assert(forall|i: int| 0 <= i < f.len() ==> #[trigger] f[i] != x) by {
                lemma_ascii_u32(c);
                if c0 <= '\u{7f}' {
                    lemma_ascii_u32(c0);
                    let a0 = c0 as u32;
                    let ac = c as u32;
                    if a0 == ac {
                        vstd::utf8::char_u32_cast(c0, a0);
                        vstd::utf8::char_u32_cast(c, ac);
                        assert(c0 == c);
                    }
                    assert(f =~= seq![ascii_byte(c0)]);
                    assert(ascii_byte(c0) == (a0 & 0x7F) as u8);
                    assert(x == (ac & 0x7F) as u8);
                    assert(a0 & 0x7F == a0) by (bit_vector)
                        requires
                            a0 <= 0x7f,
                    ;
                    assert(ac & 0x7F == ac) by (bit_vector)
                        requires
                            ac <= 0x7f,
                    ;
                    assert(ascii_byte(c0) != x);
                } else {
                    assert(x < 0x80) by {
                        let ac = c as u32;
                        assert(x == (ac & 0x7F) as u8);
                        assert((ac & 0x7F) < 0x80) by (bit_vector);
                    }
                }
            }
            lemma_first_byte_shift(f, encode_utf8(s.drop_first()), x);
            lemma_ascii_find(s.drop_first(), c);
            let rest = s.drop_first();
            let rb = encode_utf8(rest);
            match first_char_idx(rest, c) {
                None => {
                    assert(first_char_idx(s, c) is None);
                    assert(first_byte_idx(rb, x) is None);
                    assert(first_byte_idx(eb, x) is None);
                },
                Some(k2) => {
                    let p2 = first_byte_idx(rb, x)->Some_0;
                    let k = k2 + 1;
                    let p = p2 + f.len();
                    assert(first_char_idx(s, c) == Some(k));
                    assert(first_byte_idx(eb, x) == Some(p));
                    assert(s[k] == rest[k2]);
                    assert(s.take(k) =~= seq![c0] + rest.take(k2));
                    lemma_encode_utf8_concat(seq![c0], rest.take(k2));
                    assert(seq![c0].drop_first() =~= Seq::<char>::empty());
                    assert(encode_utf8(seq![c0]) == vstd::utf8::encode_scalar(
                        seq![c0][0] as u32,
                    ) + encode_utf8(seq![c0].drop_first()));
                    assert(encode_utf8(seq![c0].drop_first()) =~= Seq::<u8>::empty());
                    assert(encode_utf8(seq![c0]) =~= f);
                    assert(encode_utf8(s.take(k)) =~= f + encode_utf8(rest.take(k2)));
                    assert(eb.take(p) =~= f + rb.take(p2));
                    assert(s.skip(k + 1) =~= rest.skip(k2 + 1));
                    assert(eb.skip(p + 1) =~= rb.skip(p2 + 1));
                },
            }
        }
    }
}

/// An ASCII character's code point stays below 0x80.
pub proof fn lemma_ascii_u32(c: char)
    requires
        c <= '\u{7f}',
    ensures
        c as u32 <= 0x7f,
        ascii_byte(c) == c as u32,
        ascii_byte(c) < 0x80,
{
    vstd::utf8::char_is_scalar(c);
    assert(vstd::utf8::has_width_1_encoding(c as u32));
    let ac = c as u32;
    assert(vstd::utf8::encode_scalar(ac) =~= seq![vstd::utf8::leading_byte_width_1(ac)]);
    assert(ac & 0x7F == ac) by (bit_vector)
        requires
            ac <= 0x7f,
    ;
}

/// The UTF-8 form of one character: an ASCII character is its own single
/// byte; every byte of a wider character is at or above 0x80.
pub proof fn lemma_scalar_bytes(c: char)
    ensures
        c <= '\u{7f}' ==> vstd::utf8::encode_scalar(c as u32) == seq![ascii_byte(c)],
        c > '\u{7f}' ==> forall|i: int|
            0 <= i < vstd::utf8::encode_scalar(c as u32).len() ==> #[trigger] vstd::utf8::encode_scalar(
                c as u32,
            )[i] >= 0x80,
{
    let cu = c as u32;
    let f = vstd::utf8::encode_scalar(cu);
    vstd::utf8::char_is_scalar(c);
    if c <= '\u{7f}' {
        lemma_ascii_u32(c);
        assert(vstd::utf8::has_width_1_encoding(cu));
        assert(f =~= seq![ascii_byte(c)]);
    } else {
        assert(cu > 0x7f);
        assert(0x80u8 | (cu & 0x3F) as u8 >= 0x80) by (bit_vector);
        assert(0x80u8 | ((cu >> 6u32) & 0x3F) as u8 >= 0x80) by (bit_vector);
        assert(0x80u8 | ((cu >> 12u32) & 0x3F) as u8 >= 0x80) by (bit_vector);
        assert(0xC0u8 | ((cu >> 6u32) & 0x1F) as u8 >= 0x80) by (bit_vector);
        assert(0xE0u8 | ((cu >> 12u32) & 0x0F) as u8 >= 0x80) by (bit_vector);
        assert(0xF0u8 | ((cu >> 18u32) & 0x7) as u8 >= 0x80) by (bit_vector);
        assert forall|i: int| 0 <= i < f.len() implies #[trigger] f[i] >= 0x80 by {
            if vstd::utf8::has_width_2_encoding(cu) {
                assert(f =~= seq![
                    vstd::utf8::leading_byte_width_2(cu),
                    vstd::utf8::last_continuation_byte(cu),
                ]);
            } else if vstd::utf8::has_width_3_encoding(cu) {
                assert(f =~= seq![
                    vstd::utf8::leading_byte_width_3(cu),
                    vstd::utf8::second_last_continuation_byte(cu),
                    vstd::utf8::last_continuation_byte(cu),
                ]);
            } else {
                assert(f =~= seq![
                    vstd::utf8::leading_byte_width_4(cu),
                    vstd::utf8::third_last_continuation_byte(cu),
                    vstd::utf8::second_last_continuation_byte(cu),
                    vstd::utf8::last_continuation_byte(cu),
                ]);
            }
        }
    }
}

/// Searching past a prefix that does not hold the byte shifts the index.
pub proof fn lemma_first_byte_shift(a: Seq<u8>, b: Seq<u8>, x: u8)
    requires
        forall|i: int| 0 <= i < a.len() ==> #[trigger] a[i] != x,
    ensures
        match first_byte_idx(b, x) {
            Some(i) => first_byte_idx(a + b, x) == Some(a.len() + i),
            None => first_byte_idx(a + b, x) is None,
        },
    decreases a.len(),
{
    if a.len() == 0 {
        assert(a + b =~= b);
    } else {
        assert((a + b).drop_first() =~= a.drop_first() + b);
        assert((a + b)[0] == a[0]);
        lemma_first_byte_shift(a.drop_first(), b, x);
    }
}

/// An ASCII byte names an ASCII character.
pub proof fn lemma_byte_char(b: u8)
    requires
        b < 0x80,
    ensures
        (b as char) <= '\u{7f}',
        ascii_byte((b as char)) == b,
{
    let c = b as char;
    assert(c as u32 == b);
    lemma_ascii_u32(c);
}

/// Distinct ASCII characters have distinct bytes.
pub proof fn lemma_ascii_byte_inj(c1: char, c2: char)
    requires
        c1 <= '\u{7f}',
        c2 <= '\u{7f}',
        ascii_byte(c1) == ascii_byte(c2),
    ensures
        c1 == c2,
{
    lemma_ascii_u32(c1);
    lemma_ascii_u32(c2);
    vstd::utf8::char_u32_cast(c1, c1 as u32);
    vstd::utf8::char_u32_cast(c2, c2 as u32);
}

/// The last character and the last byte of a string's UTF-8 form line up:
/// an ASCII last byte is the last character, and losing it loses exactly
/// that character.
pub proof fn lemma_ascii_last(s: Seq<char>)
    requires
        s.len() > 0,
    ensures
        encode_utf8(s).len() > 0,
        encode_utf8(s).last() < 0x80 ==> s.last() <= '\u{7f}' && ascii_byte(s.last())
            == encode_utf8(s).last() && encode_utf8(s.drop_last()) == encode_utf8(s).drop_last(),
        encode_utf8(s).last() >= 0x80 ==> s.last() > '\u{7f}',
{
    let eb = encode_utf8(s);
    let last = s.last();
    let f = vstd::utf8::encode_scalar(last as u32);
    assert(s =~= s.drop_last() + seq![last]);
    lemma_encode_utf8_concat(s.drop_last(), seq![last]);
    assert(seq![last].drop_first() =~= Seq::<char>::empty());
    assert(encode_utf8(seq![last]) == vstd::utf8::encode_scalar(seq![last][0] as u32)
        + encode_utf8(seq![last].drop_first()));
    assert(encode_utf8(seq![last].drop_first()) =~= Seq::<u8>::empty());
    assert(encode_utf8(seq![last]) =~= f);
    assert(eb =~= encode_utf8(s.drop_last()) + f);
    vstd::utf8::char_is_scalar(last);
    assert(f.len() >= 1);
    lemma_scalar_bytes(last);
    if last <= '\u{7f}' {
        assert(f =~= seq![ascii_byte(last)]);
        lemma_ascii_u32(last);
        assert(eb.last() == ascii_byte(last));
        assert(eb.drop_last() =~= encode_utf8(s.drop_last()));
    } else {
        assert(eb.last() == f.last());
        assert(f.last() >= 0x80);
    }
}

/// The first character and the first byte line up in the same way.
pub proof fn lemma_ascii_first(s: Seq<char>)
    requires
        s.len() > 0,
    ensures
        encode_utf8(s).len() > 0,
        encode_utf8(s)[0] < 0x80 ==> s[0] <= '\u{7f}' && ascii_byte(s[0]) == encode_utf8(s)[0],
        encode_utf8(s)[0] >= 0x80 ==> s[0] > '\u{7f}',
{
    let f = vstd::utf8::encode_scalar(s[0] as u32);
    vstd::utf8::char_is_scalar(s[0]);
    assert(encode_utf8(s) == f + encode_utf8(s.drop_first()));
    assert(f.len() >= 1);
    lemma_scalar_bytes(s[0]);
    if s[0] <= '\u{7f}' {
        assert(f =~= seq![ascii_byte(s[0])]);
        lemma_ascii_u32(s[0]);
    } else {
        assert(encode_utf8(s)[0] == f[0]);
    }
}

proof fn lemma_first_byte_at(b: Seq<u8>, i: int, x: u8)
    requires
        0 <= i < b.len(),
        b[i] == x,
        forall|j: int| 0 <= j < i ==> b[j] != x,
    ensures
        first_byte_idx(b, x) == Some(i),
    decreases b.len(),
{
    if i > 0 {
        lemma_first_byte_at(b.drop_first(), i - 1, x);
    }
}

proof fn lemma_first_byte_none(b: Seq<u8>, x: u8)
    requires
        forall|j: int| 0 <= j < b.len() ==> b[j] != x,
    ensures
        first_byte_idx(b, x) is None,
    decreases b.len(),
{
    if b.len() > 0 {
        lemma_first_byte_none(b.drop_first(), x);
    }
}

/// Splits a string at the first occurrence of an ASCII character, dropping
/// that occurrence; nothing when the character does not occur.
pub fn split_once_char(s: &str, b: u8) -> (r: Option<(String, String)>)
    requires
        b < 0x80,
    ensures
        match first_char_idx(s@, (b as char)) {
            Some(k) => r matches Some((x, y)) && x@ == s@.take(k) && y@ == s@.skip(k + 1),
            None => r is None,
        },
{
    proof {
        lemma_byte_char(b);
        lemma_ascii_find(s@, (b as char));
        encode_utf8_valid_utf8(s@);
    }
    let bs: &[u8] = s.as_bytes();
    let n = bs.len();
    let mut p: usize = 0;
    while p < n && bs[p] != b
        invariant
            0 <= p <= n,
            n == bs@.len(),
            forall|j: int| 0 <= j < p ==> bs@[j] != b,
        decreases n - p,
    {
        p = p + 1;
    }
    if p == n {
        proof {
            lemma_first_byte_none(bs@, b);
        }
        return None;
    }
    proof {
        lemma_first_byte_at(bs@, p as int, b);
    }
    let ghost k = first_char_idx(s@, (b as char))->Some_0;
    let mut pre: Vec<u8> = Vec::new();
    let mut i: usize = 0;
    while i < p
        invariant
            0 <= i <= p <= n,
            n == bs@.len(),
            pre@ =~= bs@.take(i as int),
        decreases p - i,
    {
        pre.push(bs[i]);
        proof {
            assert(bs@.take(i + 1) =~= bs@.take(i as int).push(bs@[i as int]));
        }
        i = i + 1;
    }
    let mut post: Vec<u8> = Vec::new();
    let mut j: usize = p + 1;
    while j < n
        invariant
            p + 1 <= j <= n,
            n == bs@.len(),
            post@ =~= bs@.subrange(p + 1, j as int),
        decreases n - j,
    {
        post.push(bs[j]);
        proof {
            assert(bs@.subrange(p + 1, j + 1) =~= bs@.subrange(p + 1, j as int).push(
                bs@[j as int],
            ));
        }
        j = j + 1;
    }
    proof {
        assert(pre@ =~= encode_utf8(s@.take(k)));
        assert(bs@.subrange(p + 1, n as int) =~= bs@.skip(p + 1));
        assert(post@ =~= encode_utf8(s@.skip(k + 1)));
        encode_utf8_valid_utf8(s@.take(k));
        encode_utf8_valid_utf8(s@.skip(k + 1));
        encode_utf8_decode_utf8(s@.take(k));
        encode_utf8_decode_utf8(s@.skip(k + 1));
    }
    let x = match string_from_utf8(pre) {
        Some(t) => t,
        None => String::new(),
    };
    let y = match string_from_utf8(post) {
        Some(t) => t,
        None => String::new(),
    };
    Some((x, y))
}

/// The string with every trailing occurrence of `c` removed.
pub open spec fn trim_char(s: Seq<char>, c: char) -> Seq<char>
    decreases s.len(),
{
    if s.len() > 0 && s.last() == c {
        trim_char(s.drop_last(), c)
    } else {
        s
    }
}

/// Removes every trailing occurrence of an ASCII character.
pub fn trim_trailing(s: &str, b: u8) -> (r: String)
    requires
        b < 0x80,
    ensures
        r@ == trim_char(s@, (b as char)),
{
    proof {
        lemma_byte_char(b);
        encode_utf8_valid_utf8(s@);
    }
    let bs: &[u8] = s.as_bytes();
    let n = bs.len();
    let mut j: usize = n;
    let ghost mut cur: Seq<char> = s@;
    proof {
        assert(bs@.take(n as int) =~= bs@);
    }
    while j > 0 && bs[j - 1] == b
        invariant
            0 <= j <= n,
            n == bs@.len(),
            b < 0x80,
            encode_utf8(cur) == bs@.take(j as int),
            trim_char(s@, (b as char)) == trim_char(cur, (b as char)),
        decreases j,
    {
        proof {
            assert(encode_utf8(cur).len() == j);
            assert(cur.len() > 0) by {
                if cur.len() == 0 {
                    assert(encode_utf8(cur) =~= Seq::<u8>::empty());
                }
            }
            lemma_ascii_last(cur);
            lemma_byte_char(b);
            assert(encode_utf8(cur).last() == bs@[j - 1]);
            assert(ascii_byte(cur.last()) == b);
            lemma_ascii_byte_inj(cur.last(), (b as char));
            assert(cur.last() == (b as char));
            assert(encode_utf8(cur).drop_last() =~= bs@.take(j - 1));
            cur = cur.drop_last();
        }
        j = j - 1;
    }
    proof {
        if cur.len() > 0 {
            lemma_ascii_last(cur);
            if j > 0 {
                assert(encode_utf8(cur).last() == bs@[j - 1]);
                if bs@[j - 1] < 0x80 {
                    if cur.last() == (b as char) {
                        assert(ascii_byte(cur.last()) == b);
                    }
                }
                assert(cur.last() != (b as char));
            }
        }
        assert(trim_char(cur, (b as char)) == cur);
        encode_utf8_valid_utf8(cur);
        encode_utf8_decode_utf8(cur);
    }
    let mut out: Vec<u8> = Vec::new();
    let mut i: usize = 0;
    while i < j
        invariant
            0 <= i <= j <= n,
            n == bs@.len(),
            out@ =~= bs@.take(i as int),
        decreases j - i,
    {
        out.push(bs[i]);
        proof {
            assert(bs@.take(i + 1) =~= bs@.take(i as int).push(bs@[i as int]));
        }
        i = i + 1;
    }
    proof {
        assert(out@ =~= encode_utf8(cur));
    }
    match string_from_utf8(out) {
        Some(t) => t,
        None => String::new(),
    }
}

/// True when the string starts with the given ASCII character.
pub fn starts_with_char(s: &str, b: u8) -> (r: bool)
    requires
        b < 0x80,
    ensures
        r == (s@.len() > 0 && s@[0] == (b as char)),
{
    let bs: &[u8] = s.as_bytes();
    proof {
        lemma_byte_char(b);
        if s@.len() > 0 {
            lemma_ascii_first(s@);
            if bs@[0] < 0x80 {
                if s@[0] == (b as char) {
                    assert(ascii_byte(s@[0]) == b);
                }
                if bs@[0] == b {
                    lemma_ascii_byte_inj(s@[0], (b as char));
                }
            }
        } else {
            assert(encode_utf8(s@) =~= Seq::<u8>::empty());
        }
    }
    bs.len() > 0 && bs[0] == b
}

/// An ASCII blank, as solution tokens are trimmed of them.
pub open spec fn is_blank(c: char) -> bool {
    c == ' ' || c == '\t' || c == '\n' || c == '\r' || c == '\u{b}' || c == '\u{c}'
}

/// The string with leading blanks removed.
pub open spec fn trim_start_chars(s: Seq<char>) -> Seq<char>
    decreases s.len(),
{
    if s.len() > 0 && is_blank(s[0]) {
        trim_start_chars(s.drop_first())
    } else {
        s
    }
}

/// The string with trailing blanks removed.
pub open spec fn trim_end_chars(s: Seq<char>) -> Seq<char>
    decreases s.len(),
{
    if s.len() > 0 && is_blank(s.last()) {
        trim_end_chars(s.drop_last())
    } else {
        s
    }
}

/// The string with blanks removed from both ends.
pub open spec fn trim_blanks_of(s: Seq<char>) -> Seq<char> {
    trim_end_chars(trim_start_chars(s))
}

/// A byte below 0x80 that spells a blank character.
pub open spec fn is_blank_byte(b: u8) -> bool {
    b == 0x20 || b == 0x09 || b == 0x0A || b == 0x0D || b == 0x0B || b == 0x0C
}

/// An ASCII character is blank exactly when its byte is.
proof fn lemma_blank_byte(c: char)
    requires
        c <= '\u{7f}',
    ensures
        is_blank(c) <==> is_blank_byte(ascii_byte(c)),
{
    lemma_ascii_u32(c);
    if is_blank_byte(ascii_byte(c)) {
        vstd::utf8::char_u32_cast(c, c as u32);
        assert((0x20u32 as char) == ' ' && (0x09u32 as char) == '\t' && (0x0Au32 as char) == '\n'
            && (0x0Du32 as char) == '\r' && (0x0Bu32 as char) == '\u{b}' && (0x0Cu32 as char)
            == '\u{c}');
    }
}

/// Removes leading and trailing ASCII blanks.
#[verifier::rlimit(100)]
pub fn trim_blanks(s: &str) -> (r: String)
    ensures
        r@ == trim_blanks_of(s@),
{
    proof {
        encode_utf8_valid_utf8(s@);
    }
    let bs: &[u8] = s.as_bytes();
    let n = bs.len();
    let mut i: usize = 0;
    let ghost mut cur: Seq<char> = s@;
    proof {
        assert(bs@.subrange(0, n as int) =~= bs@);
    }
    while i < n && (bs[i] == 0x20 || bs[i] == 0x09 || bs[i] == 0x0A || bs[i] == 0x0D || bs[i]
        == 0x0B || bs[i] == 0x0C)
        invariant
            0 <= i <= n,
            n == bs@.len(),
            encode_utf8(cur) == bs@.subrange(i as int, n as int),
            trim_start_chars(s@) == trim_start_chars(cur),
        decreases n - i,
    {
        proof {
            assert(encode_utf8(cur).len() == n - i);
            assert(cur.len() > 0) by {
                if cur.len() == 0 {
                    assert(encode_utf8(cur) =~= Seq::<u8>::empty());
                }
            }
            let f = vstd::utf8::encode_scalar(cur[0] as u32);
            vstd::utf8::char_is_scalar(cur[0]);
            lemma_scalar_bytes(cur[0]);
            assert(encode_utf8(cur) == f + encode_utf8(cur.drop_first()));
            assert(encode_utf8(cur)[0] == bs@[i as int]);
            assert(f[0] == bs@[i as int]);
            assert(cur[0] <= '\u{7f}') by {
                if cur[0] > '\u{7f}' {
                    assert(f[0] >= 0x80);
                }
            }
            assert(f =~= seq![ascii_byte(cur[0])]);
            lemma_blank_byte(cur[0]);
            assert(is_blank(cur[0]));
            let rest = encode_utf8(cur.drop_first());
            assert(encode_utf8(cur) =~= seq![bs@[i as int]] + rest);
            assert(rest =~= bs@.subrange(i + 1, n as int)) by {
                assert(rest.len() == n - i - 1);
                assert(forall|t: int|
                    0 <= t < rest.len() ==> #[trigger] rest[t] == encode_utf8(cur)[t + 1]);
                assert(forall|t: int|
                    0 <= t < rest.len() ==> #[trigger] encode_utf8(cur)[t + 1] == bs@[i + 1
                        + t]);
            }
            cur = cur.drop_first();
        }
        i = i + 1;
    }
    proof {
        if cur.len() > 0 {
            assert(encode_utf8(cur).len() == n - i);
            let f = vstd::utf8::encode_scalar(cur[0] as u32);
            vstd::utf8::char_is_scalar(cur[0]);
            lemma_scalar_bytes(cur[0]);
            assert(encode_utf8(cur) == f + encode_utf8(cur.drop_first()));
            assert(f.len() >= 1);
            assert(encode_utf8(cur)[0] == f[0]);
            assert(encode_utf8(cur)[0] == bs@.subrange(i as int, n as int)[0]);
            assert(i < n);
            assert(f[0] == bs@[i as int]);
            if cur[0] <= '\u{7f}' {
                assert(f =~= seq![ascii_byte(cur[0])]);
                lemma_blank_byte(cur[0]);
            } else {
                assert(f[0] >= 0x80);
                assert(!is_blank(cur[0]));
            }
            assert(!is_blank(cur[0]));
        }
        assert(trim_start_chars(cur) == cur);
        assert(trim_start_chars(s@) == cur);
    }
    let mut j: usize = n;
    while j > i && (bs[j - 1] == 0x20 || bs[j - 1] == 0x09 || bs[j - 1] == 0x0A || bs[j - 1]
        == 0x0D || bs[j - 1] == 0x0B || bs[j - 1] == 0x0C)
        invariant
            0 <= i <= j <= n,
            n == bs@.len(),
            encode_utf8(cur) == bs@.subrange(i as int, j as int),
            trim_end_chars(trim_start_chars(s@)) == trim_end_chars(cur),
        decreases j,
    {
        proof {
            assert(encode_utf8(cur).len() == j - i);
            assert(cur.len() > 0) by {
                if cur.len() == 0 {
                    assert(encode_utf8(cur) =~= Seq::<u8>::empty());
                }
            }
            lemma_ascii_last(cur);
            assert(encode_utf8(cur).last() == bs@[j - 1]);
            assert(cur.last() <= '\u{7f}');
            assert(ascii_byte(cur.last()) == bs@[j - 1]);
            lemma_blank_byte(cur.last());
            assert(is_blank(cur.last()));
            assert(encode_utf8(cur).drop_last() =~= bs@.subrange(i as int, j - 1));
            assert(encode_utf8(cur.drop_last()) =~= bs@.subrange(i as int, j - 1));
            cur = cur.drop_last();
        }
        j = j - 1;
    }
    proof {
        if cur.len() > 0 {
            lemma_ascii_last(cur);
            assert(encode_utf8(cur).len() > 0);
            assert(encode_utf8(cur).last() == bs@[j - 1]);
            if cur.last() <= '\u{7f}' {
                lemma_blank_byte(cur.last());
            } else {
                assert(!is_blank(cur.last()));
            }
            assert(!is_blank(cur.last()));
        }
        assert(trim_end_chars(cur) == cur);
        assert(trim_blanks_of(s@) == cur);
        encode_utf8_valid_utf8(cur);
        encode_utf8_decode_utf8(cur);
    }
    let mut out: Vec<u8> = Vec::new();
    let mut t: usize = i;
    while t < j
        invariant
            i <= t <= j <= n,
            n == bs@.len(),
            out@ =~= bs@.subrange(i as int, t as int),
        decreases j - t,
    {
        out.push(bs[t]);
        proof {
            assert(bs@.subrange(i as int, t + 1) =~= bs@.subrange(i as int, t as int).push(
                bs@[t as int],
            ));
        }
        t = t + 1;
    }
    proof {
        assert(out@ =~= encode_utf8(cur));
    }
    match string_from_utf8(out) {
        Some(r) => r,
        None => String::new(),
    }
}

/// UTF-8 encoding distributes over concatenation.
pub proof fn lemma_encode_utf8_concat(a: Seq<char>, b: Seq<char>)
    ensures
        encode_utf8(a + b) == encode_utf8(a) + encode_utf8(b),
    decreases a.len(),
{
    if a.len() == 0 {
        assert(a + b =~= b);
        assert(encode_utf8(a) =~= Seq::<u8>::empty());
        assert(encode_utf8(a) + encode_utf8(b) =~= encode_utf8(b));
    } else {
        assert((a + b).drop_first() =~= a.drop_first() + b);
        assert((a + b)[0] == a[0]);
        assert((a + b).len() > 0);
        lemma_encode_utf8_concat(a.drop_first(), b);
        assert(encode_utf8(a + b) =~= encode_utf8(a) + encode_utf8(b));
    }
}

} // verus!
