//! JSON values and their compact textual form.
//!
//! The request/response envelope of the wire protocol is JSON. The library
//! models a JSON document as [`JsonValue`]: strings, booleans, null, arrays,
//! objects with ordered fields, and numbers carried as their raw tokens (the
//! envelope itself only ever reads whole-number tokens, but any number
//! token passes through unharmed). Serialization produces the compact form:
//! no whitespace, object fields in order, strings escaped with `\"`, `\\`,
//! `\b`, `\t`, `\n`, `\f`, `\r`, and `\u00XX` for the remaining control
//! characters.

use vstd::prelude::*;

verus! {

use vstd::utf8::{valid_utf8, decode_utf8, encode_utf8};
use vstd::utf8::{valid_first_scalar, length_of_first_scalar, take_first_scalar, pop_first_scalar};
use vstd::utf8::{is_leading_byte_width_1, valid_utf8_concat, encode_utf8_valid_utf8};
use crate::text::{ascii_chars_of, all_ascii};

broadcast use vstd::seq::group_seq_axioms, vstd::std_specs::vec::axiom_vec_index_decreases;

/// The mathematical shape of a JSON document.
pub ghost enum Jv {
    Null,
    Bool(bool),
    /// A number, as its raw token, e.g. `200` or `-1.5e3`.
    Num(Seq<char>),
    Str(Seq<char>),
    Arr(Seq<Jv>),
    Obj(Seq<(Seq<char>, Jv)>),
}

/// A JSON document.
#[derive(Debug)]
pub enum JsonValue {
    Null,
    Bool(bool),
    /// A number, carried as its raw token.
    Num(String),
    Str(String),
    Arr(Vec<JsonValue>),
    Obj(Vec<(String, JsonValue)>),
}

/// The shapes of a sequence of documents.
pub open spec fn deep_list(elems: Seq<JsonValue>) -> Seq<Jv> {
    Seq::new(elems.len(), |i: int| elems[i].deep())
}

/// The shapes of a sequence of object fields.
pub open spec fn deep_fields(fields: Seq<(String, JsonValue)>) -> Seq<(Seq<char>, Jv)> {
    Seq::new(fields.len(), |i: int| (fields[i].0@, fields[i].1.deep()))
}

impl JsonValue {
    /// The mathematical shape of this document.
    pub open spec fn deep(self) -> Jv
        decreases self,
    {
        match self {
            JsonValue::Null => Jv::Null,
            JsonValue::Bool(b) => Jv::Bool(b),
            JsonValue::Num(tok) => Jv::Num(tok@),
            JsonValue::Str(s) => Jv::Str(s@),
            JsonValue::Arr(elems) => Jv::Arr(
                Seq::new(
                    elems@.len(),
                    |i: int|
                        if 0 <= i < elems@.len() {
                            elems@[i].deep()
                        } else {
                            Jv::Null
                        },
                ),
            ),
            JsonValue::Obj(fields) => Jv::Obj(
                Seq::new(
                    fields@.len(),
                    |i: int|
                        if 0 <= i < fields@.len() {
                            (fields@[i].0@, fields@[i].1.deep())
                        } else {
                            (Seq::empty(), Jv::Null)
                        },
                ),
            ),
        }
    }
}

/// One hex digit, lower case, as serializers write it.
pub open spec fn hex_digit(n: int) -> u8 {
    if n < 10 {
        (0x30 + n) as u8
    } else {
        (0x61 + (n - 10)) as u8
    }
}

/// How one byte of a string's UTF-8 form appears inside a JSON string
/// literal. Bytes of multi-byte characters are all at or above 0x80 and
/// pass through unchanged.
pub open spec fn escape_byte(b: u8) -> Seq<u8> {
    if b == 0x22 {
        seq![0x5Cu8, 0x22u8]
    } else if b == 0x5C {
        seq![0x5Cu8, 0x5Cu8]
    } else if b == 0x08 {
        seq![0x5Cu8, 0x62u8]
    } else if b == 0x09 {
        seq![0x5Cu8, 0x74u8]
    } else if b == 0x0A {
        seq![0x5Cu8, 0x6Eu8]
    } else if b == 0x0C {
        seq![0x5Cu8, 0x66u8]
    } else if b == 0x0D {
        seq![0x5Cu8, 0x72u8]
    } else if b < 0x20 {
        seq![0x5Cu8, 0x75u8, 0x30u8, 0x30u8, hex_digit(b as int / 16), hex_digit(b as int % 16)]
    } else {
        seq![b]
    }
}

/// A whole byte sequence, escaped.
pub open spec fn escape_bytes(s: Seq<u8>) -> Seq<u8>
    decreases s.len(),
{
    if s.len() == 0 {
        Seq::empty()
    } else {
        escape_byte(s[0]) + escape_bytes(s.drop_first())
    }
}

/// A JSON string literal: quote, escaped UTF-8 bytes, quote.
pub open spec fn jstr_bytes(s: Seq<char>) -> Seq<u8> {
    seq![0x22u8] + escape_bytes(encode_utf8(s)) + seq![0x22u8]
}

/// The compact serialization of a document, as UTF-8 bytes.
pub open spec fn jv_bytes(v: Jv) -> Seq<u8>
    decreases v,
{
    match v {
        Jv::Null => seq![0x6Eu8, 0x75u8, 0x6Cu8, 0x6Cu8],
        Jv::Bool(b) => if b {
            seq![0x74u8, 0x72u8, 0x75u8, 0x65u8]
        } else {
            seq![0x66u8, 0x61u8, 0x6Cu8, 0x73u8, 0x65u8]
        },
        Jv::Num(tok) => encode_utf8(tok),
        Jv::Str(s) => jstr_bytes(s),
        Jv::Arr(elems) => seq![0x5Bu8] + jv_list_bytes(elems) + seq![0x5Du8],
        Jv::Obj(fields) => seq![0x7Bu8] + jv_fields_bytes(fields) + seq![0x7Du8],
    }
}

/// Array elements, comma separated.
pub open spec fn jv_list_bytes(elems: Seq<Jv>) -> Seq<u8>
    decreases elems,
{
    if elems.len() == 0 {
        Seq::empty()
    } else if elems.len() == 1 {
        jv_bytes(elems[0])
    } else {
        jv_bytes(elems[0]) + seq![0x2Cu8] + jv_list_bytes(elems.drop_first())
    }
}

/// Object fields, `"key":value`, comma separated.
pub open spec fn jv_fields_bytes(fields: Seq<(Seq<char>, Jv)>) -> Seq<u8>
    decreases fields,
{
    if fields.len() == 0 {
        Seq::empty()
    } else {
        let f = jstr_bytes(fields[0].0) + seq![0x3Au8] + jv_bytes(fields[0].1);
        if fields.len() == 1 {
            f
        } else {
            f + seq![0x2Cu8] + jv_fields_bytes(fields.drop_first())
        }
    }
}

proof fn lemma_escape_bytes_snoc(s: Seq<u8>, x: u8)
    ensures
        escape_bytes(s.push(x)) == escape_bytes(s) + escape_byte(x),
    decreases s.len(),
{
    if s.len() == 0 {
        let p = s.push(x);
        assert(p.len() == 1);
        assert(p[0] == x);
        assert(p.drop_first() =~= Seq::<u8>::empty());
        assert(escape_bytes(p) == escape_byte(x) + escape_bytes(p.drop_first()));
        assert(escape_bytes(p.drop_first()) =~= Seq::<u8>::empty());
        assert(escape_bytes(s) =~= Seq::<u8>::empty());
        assert(escape_bytes(p) =~= escape_bytes(s) + escape_byte(x));
    } else {
        assert(s.push(x).drop_first() =~= s.drop_first().push(x));
        assert(s.push(x)[0] == s[0]);
        lemma_escape_bytes_snoc(s.drop_first(), x);
        assert(escape_bytes(s.push(x)) =~= escape_bytes(s) + escape_byte(x));
    }
}

/// Serializes the UTF-8 bytes of a string as a JSON string literal.
fn string_literal_bytes(s: &str, out: &mut Vec<u8>)
    ensures
        final(out)@ == old(out)@ + jstr_bytes(s@),
{
    let bs: &[u8] = s.as_bytes();
    out.push(0x22);
    let ghost eb = encode_utf8(s@);
    let mut i: usize = 0;
    proof {
        assert(escape_bytes(eb.take(0)) =~= Seq::<u8>::empty());
        assert(out@ =~= old(out)@ + seq![0x22u8] + escape_bytes(eb.take(0)));
    }
    while i < bs.len()
        invariant
            i <= bs@.len(),
            bs@ == encode_utf8(s@),
            eb == encode_utf8(s@),
            out@ == old(out)@ + seq![0x22u8] + escape_bytes(eb.take(i as int)),
        decreases bs@.len() - i,
    {
        let b = bs[i];
        if b == 0x22 {
            out.push(0x5C);
            out.push(0x22);
        } else if b == 0x5C {
            out.push(0x5C);
            out.push(0x5C);
        } else if b == 0x08 {
            out.push(0x5C);
            out.push(0x62);
        } else if b == 0x09 {
            out.push(0x5C);
            out.push(0x74);
        } else if b == 0x0A {
            out.push(0x5C);
            out.push(0x6E);
        } else if b == 0x0C {
            out.push(0x5C);
            out.push(0x66);
        } else if b == 0x0D {
            out.push(0x5C);
            out.push(0x72);
        } else if b < 0x20 {
            out.push(0x5C);
            out.push(0x75);
            out.push(0x30);
            out.push(0x30);
            let hi = b / 16;
            let lo = b % 16;
            out.push(if hi < 10 { 0x30 + hi } else { 0x61 + (hi - 10) });
            out.push(if lo < 10 { 0x30 + lo } else { 0x61 + (lo - 10) });
        } else {
            out.push(b);
        }
        proof {
            assert(eb.take(i + 1) =~= eb.take(i as int).push(eb[i as int]));
            lemma_escape_bytes_snoc(eb.take(i as int), eb[i as int]);
            assert(out@ =~= old(out)@ + seq![0x22u8] + escape_bytes(eb.take(i + 1)));
        }
        i = i + 1;
    }
    out.push(0x22);
    proof {
        assert(eb.take(eb.len() as int) =~= eb);
        assert(out@ =~= old(out)@ + jstr_bytes(s@));
    }
}

/// Serializes a document into `out`, appending its compact form.
#[verifier::loop_isolation(false)]
#[verifier::rlimit(100)]
fn write_value(v: &JsonValue, out: &mut Vec<u8>)
    ensures
        final(out)@ == old(out)@ + jv_bytes(v.deep()),
    decreases v,
{
    match v {
        JsonValue::Null => {
            out.push(0x6E);
            out.push(0x75);
            out.push(0x6C);
            out.push(0x6C);
            proof {
                assert(out@ =~= old(out)@ + jv_bytes(v.deep()));
            }
        },
        JsonValue::Bool(b) => {
            if *b {
                out.push(0x74);
                out.push(0x72);
                out.push(0x75);
                out.push(0x65);
            } else {
                out.push(0x66);
                out.push(0x61);
                out.push(0x6C);
                out.push(0x73);
                out.push(0x65);
            }
            proof {
                assert(out@ =~= old(out)@ + jv_bytes(v.deep()));
            }
        },
        JsonValue::Num(tok) => {
            let bs: &[u8] = tok.as_str().as_bytes();
            out.extend_from_slice(bs);
            proof {
                assert(out@ =~= old(out)@ + jv_bytes(v.deep()));
            }
        },
        JsonValue::Str(s) => {
            string_literal_bytes(s.as_str(), out);
        },
        JsonValue::Arr(elems) => {
            out.push(0x5B);
            let ghost dl = v.deep()->Arr_0;
            let mut i: usize = 0;
            proof {
                assert(v.deep() is Arr);
                assert(dl.len() == elems@.len());
            }
            while i < elems.len()
                invariant
                    i <= elems@.len(),
                    dl == deep_list(elems@),
                    dl.len() == elems@.len(),
                    i == 0 ==> out@ == old(out)@ + seq![0x5Bu8],
                    i > 0 ==> out@ == old(out)@ + seq![0x5Bu8] + jv_list_bytes(dl.take(i as int))
                        + if i < elems@.len() {
                        seq![0x2Cu8]
                    } else {
                        Seq::<u8>::empty()
                    },
                decreases elems@.len() - i,
            {
                proof {
                    assert(dl[i as int] == elems@[i as int].deep());
                    vstd::std_specs::vec::axiom_vec_index_decreases(*elems, i as int);
                }
                write_value(&elems[i], out);
                proof {
                    lemma_list_bytes_snoc(dl, i as int);
                }
                i = i + 1;
                if i < elems.len() {
                    out.push(0x2C);
                }
            }
            out.push(0x5D);
            proof {
                assert(dl.take(dl.len() as int) =~= dl);
                if dl.len() == 0 {
                    assert(jv_list_bytes(dl) =~= Seq::<u8>::empty());
                }
                assert(out@ =~= old(out)@ + jv_bytes(v.deep()));
            }
        },
        JsonValue::Obj(fields) => {
            out.push(0x7B);
            let ghost df = v.deep()->Obj_0;
            let mut i: usize = 0;
            proof {
                assert(v.deep() is Obj);
                assert(df.len() == fields@.len());
            }
            while i < fields.len()
                invariant
                    i <= fields@.len(),
                    df == deep_fields(fields@),
                    df.len() == fields@.len(),
                    i == 0 ==> out@ == old(out)@ + seq![0x7Bu8],
                    i > 0 ==> out@ == old(out)@ + seq![0x7Bu8] + jv_fields_bytes(
                        df.take(i as int),
                    ) + if i < fields@.len() {
                        seq![0x2Cu8]
                    } else {
                        Seq::<u8>::empty()
                    },
                decreases fields@.len() - i,
            {
                let pair = &fields[i];
                proof {
                    assert(df[i as int] == (fields@[i as int].0@, fields@[i as int].1.deep()));
                }
                proof {
                    vstd::std_specs::vec::axiom_vec_index_decreases(*fields, i as int);
                }
                string_literal_bytes(pair.0.as_str(), out);
                out.push(0x3A);
                write_value(&pair.1, out);
                proof {
                    lemma_fields_bytes_snoc(df, i as int);
                }
                i = i + 1;
                if i < fields.len() {
                    out.push(0x2C);
                }
            }
            out.push(0x7D);
            proof {
                assert(df.take(df.len() as int) =~= df);
                if df.len() == 0 {
                    assert(jv_fields_bytes(df) =~= Seq::<u8>::empty());
                }
                assert(out@ =~= old(out)@ + jv_bytes(v.deep()));
            }
        },
    }
}

proof fn lemma_list_bytes_snoc(s: Seq<Jv>, i: int)
    requires
        0 <= i < s.len(),
    ensures
        i == 0 ==> jv_list_bytes(s.take(1)) == jv_bytes(s[0]),
        i > 0 ==> jv_list_bytes(s.take(i + 1)) == jv_list_bytes(s.take(i)) + seq![0x2Cu8]
            + jv_bytes(s[i]),
    decreases i,
{
    if i == 0 {
        assert(s.take(1).len() == 1);
        assert(s.take(1)[0] == s[0]);
    } else {
        lemma_list_bytes_snoc(s.drop_first(), i - 1);
        let a = s.take(i + 1);
        assert(a.len() >= 2);
        assert(a[0] == s[0]);
        assert(a.drop_first() =~= s.drop_first().take(i));
        assert(s.take(i)[0] == s[0]);
        assert(s.take(i).len() >= 1);
        assert(s.take(i).drop_first() =~= s.drop_first().take(i - 1));
        assert(s.drop_first()[i - 1] == s[i]);
        if i == 1 {
            assert(jv_list_bytes(a) == jv_bytes(s[0]) + seq![0x2Cu8] + jv_list_bytes(
                s.drop_first().take(1),
            ));
            assert(jv_list_bytes(s.take(1)) == jv_bytes(s[0]));
            assert(jv_list_bytes(a) =~= jv_list_bytes(s.take(1)) + seq![0x2Cu8] + jv_bytes(s[1]));
        } else {
            assert(jv_list_bytes(a) == jv_bytes(s[0]) + seq![0x2Cu8] + jv_list_bytes(
                s.drop_first().take(i),
            ));
            assert(jv_list_bytes(s.take(i)) == jv_bytes(s[0]) + seq![0x2Cu8] + jv_list_bytes(
                s.drop_first().take(i - 1),
            ));
            assert(jv_list_bytes(a) =~= jv_list_bytes(s.take(i)) + seq![0x2Cu8] + jv_bytes(s[i]));
        }
    }
}

proof fn lemma_fields_bytes_snoc(s: Seq<(Seq<char>, Jv)>, i: int)
    requires
        0 <= i < s.len(),
    ensures
        i == 0 ==> jv_fields_bytes(s.take(1)) == jstr_bytes(s[0].0) + seq![0x3Au8] + jv_bytes(
            s[0].1,
        ),
        i > 0 ==> jv_fields_bytes(s.take(i + 1)) == jv_fields_bytes(s.take(i)) + seq![0x2Cu8]
            + jstr_bytes(s[i].0) + seq![0x3Au8] + jv_bytes(s[i].1),
    decreases i,
{
    if i == 0 {
        assert(s.take(1).len() == 1);
        assert(s.take(1)[0] == s[0]);
    } else {
        lemma_fields_bytes_snoc(s.drop_first(), i - 1);
        let a = s.take(i + 1);
        assert(a.len() >= 2);
        assert(a[0] == s[0]);
        assert(a.drop_first() =~= s.drop_first().take(i));
        assert(s.take(i)[0] == s[0]);
        assert(s.take(i).len() >= 1);
        assert(s.take(i).drop_first() =~= s.drop_first().take(i - 1));
        assert(s.drop_first()[i - 1] == s[i]);
        if i == 1 {
            assert(jv_fields_bytes(a) =~= jv_fields_bytes(s.take(1)) + seq![0x2Cu8] + jstr_bytes(
                s[1].0,
            ) + seq![0x3Au8] + jv_bytes(s[1].1));
        } else {
            assert(jv_fields_bytes(a) =~= jv_fields_bytes(s.take(i)) + seq![0x2Cu8] + jstr_bytes(
                s[i].0,
            ) + seq![0x3Au8] + jv_bytes(s[i].1));
        }
    }
}

proof fn lemma_escape_bytes_concat(a: Seq<u8>, b: Seq<u8>)
    ensures
        escape_bytes(a + b) == escape_bytes(a) + escape_bytes(b),
    decreases a.len(),
{
    if a.len() == 0 {
        assert(a + b =~= b);
        assert(escape_bytes(a) =~= Seq::<u8>::empty());
        assert(escape_bytes(a) + escape_bytes(b) =~= escape_bytes(b));
    } else {
        assert((a + b).len() > 0);
        assert((a + b)[0] == a[0]);
        assert((a + b).drop_first() =~= a.drop_first() + b);
        lemma_escape_bytes_concat(a.drop_first(), b);
        assert(escape_bytes(a + b) =~= escape_bytes(a) + escape_bytes(b));
    }
}

proof fn lemma_escape_bytes_id(x: Seq<u8>)
    requires
        forall|i: int| 0 <= i < x.len() ==> #[trigger] x[i] >= 0x80,
    ensures
        escape_bytes(x) == x,
    decreases x.len(),
{
    if x.len() == 0 {
        assert(escape_bytes(x) =~= x);
    } else {
        assert(x[0] >= 0x80);
        assert(escape_byte(x[0]) =~= seq![x[0]]);
        lemma_escape_bytes_id(x.drop_first());
        assert(escape_bytes(x) =~= seq![x[0]] + x.drop_first());
        assert(seq![x[0]] + x.drop_first() =~= x);
    }
}

proof fn lemma_escape_byte_ascii(b: u8)
    requires
        b < 0x80,
    ensures
        all_ascii(escape_byte(b)),
{
}

/// Escaping a valid UTF-8 byte sequence yields valid UTF-8 again: ASCII
/// bytes become ASCII escapes, and the bytes of multi-byte characters pass
/// through untouched.
proof fn lemma_escape_bytes_valid(s: Seq<u8>)
    requires
        valid_utf8(s),
    ensures
        valid_utf8(escape_bytes(s)),
    decreases s.len(),
{
    if s.len() > 0 {
        assert(valid_first_scalar(s));
        let l = length_of_first_scalar(s);
        assert(1 <= l <= 4 && l <= s.len());
        let head = take_first_scalar(s);
        let rest = pop_first_scalar(s);
        assert(s =~= head + rest);
        lemma_escape_bytes_concat(head, rest);
        if l == 1 {
            assert(is_leading_byte_width_1(s[0]));
            assert(head =~= seq![s[0]]);
            assert(head.len() == 1 && head[0] == s[0]);
            assert(head.drop_first() =~= Seq::<u8>::empty());
            assert(escape_bytes(head) == escape_byte(head[0]) + escape_bytes(head.drop_first()));
            assert(escape_bytes(head.drop_first()) =~= Seq::<u8>::empty());
            assert(escape_bytes(head) =~= escape_byte(s[0]));
            lemma_escape_byte_ascii(s[0]);
            crate::text::lemma_ascii_decode(escape_byte(s[0]));
            assert(valid_utf8(escape_bytes(head)));
        } else {
            assert forall|i: int| 0 <= i < head.len() implies #[trigger] head[i] >= 0x80 by {
                assert(head[i] == s[i]);
            }
            lemma_escape_bytes_id(head);
            assert(head.len() == l);
            assert(head[0] == s[0]);
            assert(l >= 2 ==> head[1] == s[1]);
            assert(l >= 3 ==> head[2] == s[2]);
            assert(l >= 4 ==> head[3] == s[3]);
            assert(vstd::utf8::decode_first_codepoint(head) == vstd::utf8::decode_first_codepoint(
                s,
            ));
            assert(vstd::utf8::length_of_first_codepoint(head)
                == vstd::utf8::length_of_first_codepoint(s));
            assert(valid_first_scalar(head));
            assert(length_of_first_scalar(head) == l);
            assert(pop_first_scalar(head) =~= Seq::<u8>::empty());
            assert(valid_utf8(pop_first_scalar(head)));
            assert(valid_utf8(head));
            assert(valid_utf8(escape_bytes(head)));
        }
        assert(valid_utf8(rest));
        lemma_escape_bytes_valid(rest);
        valid_utf8_concat(escape_bytes(head), escape_bytes(rest));
        assert(escape_bytes(s) == escape_bytes(head) + escape_bytes(rest));
    }
}

/// The serialized form of any document is valid UTF-8.
pub proof fn lemma_jv_bytes_valid(v: Jv)
    ensures
        valid_utf8(jv_bytes(v)),
    decreases v,
{
    match v {
        Jv::Null => {
            crate::text::lemma_ascii_decode(jv_bytes(v));
        },
        Jv::Bool(_) => {
            crate::text::lemma_ascii_decode(jv_bytes(v));
        },
        Jv::Num(tok) => {
            encode_utf8_valid_utf8(tok);
        },
        Jv::Str(s) => {
            lemma_jstr_bytes_valid(s);
        },
        Jv::Arr(elems) => {
            lemma_jv_list_bytes_valid(elems);
            crate::text::lemma_ascii_decode(seq![0x5Bu8]);
            crate::text::lemma_ascii_decode(seq![0x5Du8]);
            valid_utf8_concat(seq![0x5Bu8], jv_list_bytes(elems));
            valid_utf8_concat(seq![0x5Bu8] + jv_list_bytes(elems), seq![0x5Du8]);
        },
        Jv::Obj(fields) => {
            lemma_jv_fields_bytes_valid(fields);
            crate::text::lemma_ascii_decode(seq![0x7Bu8]);
            crate::text::lemma_ascii_decode(seq![0x7Du8]);
            valid_utf8_concat(seq![0x7Bu8], jv_fields_bytes(fields));
            valid_utf8_concat(seq![0x7Bu8] + jv_fields_bytes(fields), seq![0x7Du8]);
        },
    }
}

/// The serialized form of any string literal is valid UTF-8.
proof fn lemma_jstr_bytes_valid(s: Seq<char>)
    ensures
        valid_utf8(jstr_bytes(s)),
{
    encode_utf8_valid_utf8(s);
    lemma_escape_bytes_valid(encode_utf8(s));
    crate::text::lemma_ascii_decode(seq![0x22u8]);
    valid_utf8_concat(seq![0x22u8], escape_bytes(encode_utf8(s)));
    valid_utf8_concat(seq![0x22u8] + escape_bytes(encode_utf8(s)), seq![0x22u8]);
}

proof fn lemma_jv_list_bytes_valid(elems: Seq<Jv>)
    ensures
        valid_utf8(jv_list_bytes(elems)),
    decreases elems,
{
    if elems.len() == 0 {
        assert(valid_utf8(jv_list_bytes(elems)));
    } else if elems.len() == 1 {
        lemma_jv_bytes_valid(elems[0]);
    } else {
        lemma_jv_bytes_valid(elems[0]);
        lemma_jv_list_bytes_valid(elems.drop_first());
        crate::text::lemma_ascii_decode(seq![0x2Cu8]);
        valid_utf8_concat(jv_bytes(elems[0]), seq![0x2Cu8]);
        valid_utf8_concat(jv_bytes(elems[0]) + seq![0x2Cu8], jv_list_bytes(elems.drop_first()));
        assert(jv_list_bytes(elems) =~= (jv_bytes(elems[0]) + seq![0x2Cu8]) + jv_list_bytes(
            elems.drop_first(),
        ));
    }
}

proof fn lemma_jv_fields_bytes_valid(fields: Seq<(Seq<char>, Jv)>)
    ensures
        valid_utf8(jv_fields_bytes(fields)),
    decreases fields,
{
    if fields.len() == 0 {
        assert(valid_utf8(jv_fields_bytes(fields)));
    } else {
        let f = jstr_bytes(fields[0].0) + seq![0x3Au8] + jv_bytes(fields[0].1);
        lemma_jstr_bytes_valid(fields[0].0);
        lemma_jv_bytes_valid(fields[0].1);
        crate::text::lemma_ascii_decode(seq![0x3Au8]);
        valid_utf8_concat(jstr_bytes(fields[0].0), seq![0x3Au8]);
        valid_utf8_concat(jstr_bytes(fields[0].0) + seq![0x3Au8], jv_bytes(fields[0].1));
        if fields.len() == 1 {
            assert(jv_fields_bytes(fields) == f);
        } else {
            lemma_jv_fields_bytes_valid(fields.drop_first());
            crate::text::lemma_ascii_decode(seq![0x2Cu8]);
            valid_utf8_concat(f, seq![0x2Cu8]);
            valid_utf8_concat(f + seq![0x2Cu8], jv_fields_bytes(fields.drop_first()));
            assert(jv_fields_bytes(fields) =~= (f + seq![0x2Cu8]) + jv_fields_bytes(
                fields.drop_first(),
            ));
        }
    }
}

/// The compact serialization of a document, as text.
pub open spec fn jv_text(v: Jv) -> Seq<char> {
    decode_utf8(jv_bytes(v))
}

/// The value under the first field named `key`, if any.
pub open spec fn obj_get(ms: Seq<(Seq<char>, Jv)>, key: Seq<char>) -> Option<Jv>
    decreases ms.len(),
{
    if ms.len() == 0 {
        None
    } else if ms[0].0 == key {
        Some(ms[0].1)
    } else {
        obj_get(ms.drop_first(), key)
    }
}

/// A decimal digit character.
pub open spec fn is_digit_char(c: char) -> bool {
    '0' <= c <= '9'
}

/// The value of a digit-character string.
pub open spec fn chars_dec_value(s: Seq<char>) -> nat
    decreases s.len(),
{
    if s.len() == 0 {
        0
    } else {
        (chars_dec_value(s.drop_last()) * 10 + (s.last() as u32 - '0' as u32)) as nat
    }
}

/// What a number token denotes as an unsigned 64-bit integer: defined
/// exactly for plain digit runs whose value fits.
pub open spec fn num_u64(tok: Seq<char>) -> Option<u64> {
    if tok.len() > 0 && (forall|i: int| 0 <= i < tok.len() ==> is_digit_char(#[trigger] tok[i]))
        && chars_dec_value(tok) <= u64::MAX {
        Some(chars_dec_value(tok) as u64)
    } else {
        None
    }
}

impl JsonValue {
    /// The compact serialization of this document, as UTF-8 bytes.
    pub fn to_bytes(&self) -> (r: Vec<u8>)
        ensures
            r@ == jv_bytes(self.deep()),
    {
        let mut out: Vec<u8> = Vec::new();
        write_value(self, &mut out);
        proof {
            assert(Seq::<u8>::empty() + jv_bytes(self.deep()) =~= jv_bytes(self.deep()));
        }
        out
    }

    /// The compact serialization of this document, as text.
    pub fn to_text(&self) -> (r: String)
        ensures
            r@ == jv_text(self.deep()),
    {
        let bytes = self.to_bytes();
        proof {
            lemma_jv_bytes_valid(self.deep());
        }
        match crate::text::string_from_utf8(bytes) {
            Some(s) => s,
            None => String::new(),
        }
    }

    /// A number document for an unsigned integer: its decimal token.
    pub fn from_u64(n: u64) -> (r: JsonValue)
        ensures
            r.deep() == Jv::Num(ascii_chars_of(crate::frame::dec_digits(n as nat))),
    {
        let digits = crate::text::render_u64(n);
        proof {
            crate::frame::lemma_dec_digits_are_digits(n as nat);
            assert(all_ascii(digits@));
        }
        JsonValue::Num(crate::text::ascii_to_string(digits))
    }

    /// The value under the first field named `key`, when this document is
    /// an object that has one.
    pub fn get<'a>(&'a self, key: &str) -> (r: Option<&'a JsonValue>)
        ensures
            match self.deep() {
                Jv::Obj(ms) => match obj_get(ms, key@) {
                    Some(jv) => r matches Some(v) && v.deep() == jv,
                    None => r is None,
                },
                _ => r is None,
            },
    {
        match self {
            JsonValue::Obj(fields) => {
                let ghost ms = self.deep()->Obj_0;
                proof {
                    assert(ms.skip(0) =~= ms);
                }
                let mut i: usize = 0;
                while i < fields.len()
                    invariant
                        i <= fields@.len(),
                        ms == self.deep()->Obj_0,
                        self.deep() is Obj,
                        ms.len() == fields@.len(),
                        forall|t: int|
                            0 <= t < ms.len() ==> #[trigger] ms[t] == (
                                fields@[t].0@,
                                fields@[t].1.deep(),
                            ),
                        obj_get(ms, key@) == obj_get(ms.skip(i as int), key@),
                    decreases fields@.len() - i,
                {
                    let pair = &fields[i];
                    proof {
                        assert(ms.skip(i as int)[0] == ms[i as int]);
                        assert(ms.skip(i as int).drop_first() =~= ms.skip(i + 1));
                    }
                    if crate::text::str_eq(pair.0.as_str(), key) {
                        return Some(&pair.1);
                    }
                    i = i + 1;
                }
                proof {
                    assert(ms.skip(fields@.len() as int).len() == 0);
                }
                None
            },
            _ => None,
        }
    }

    /// The value under the first field named `key`, taken out of the
    /// document by value.
    pub fn take_field(self, key: &str) -> (r: Option<JsonValue>)
        ensures
            match self.deep() {
                Jv::Obj(ms) => match obj_get(ms, key@) {
                    Some(jv) => r matches Some(v) && v.deep() == jv,
                    None => r is None,
                },
                _ => r is None,
            },
    {
        let ghost dp = self.deep();
        match self {
            JsonValue::Obj(mut fields) => {
                let ghost ms = dp->Obj_0;
                proof {
                    assert(dp is Obj);
                    assert(ms.skip(0) =~= ms);
                }
                let mut i: usize = 0;
                while i < fields.len()
                    invariant
                        i <= fields@.len(),
                        dp == self.deep(),
                        dp is Obj,
                        ms == dp->Obj_0,
                        ms.len() == fields@.len(),
                        forall|t: int|
                            0 <= t < ms.len() ==> #[trigger] ms[t] == (
                                fields@[t].0@,
                                fields@[t].1.deep(),
                            ),
                        obj_get(ms, key@) == obj_get(ms.skip(i as int), key@),
                    decreases fields@.len() - i,
                {
                    proof {
                        assert(ms.skip(i as int)[0] == ms[i as int]);
                        assert(ms.skip(i as int).drop_first() =~= ms.skip(i + 1));
                    }
                    let hit = crate::text::str_eq(fields[i].0.as_str(), key);
                    if hit {
                        let pair = fields.remove(i);
                        return Some(pair.1);
                    }
                    i = i + 1;
                }
                proof {
                    assert(ms.skip(fields@.len() as int).len() == 0);
                }
                None
            },
            _ => None,
        }
    }

    /// The contained string, when this document is a string.
    pub fn as_str<'a>(&'a self) -> (r: Option<&'a String>)
        ensures
            match self.deep() {
                Jv::Str(s) => r matches Some(t) && t@ == s,
                _ => r is None,
            },
    {
        match self {
            JsonValue::Str(s) => Some(s),
            _ => None,
        }
    }

    /// The contained number as an unsigned integer, when this document is
    /// a number whose token is a plain digit run that fits in 64 bits.
    pub fn as_u64(&self) -> (r: Option<u64>)
        ensures
            match self.deep() {
                Jv::Num(tok) => r == num_u64(tok),
                _ => r is None,
            },
    {
        match self {
            JsonValue::Num(tok) => {
                let bs: &[u8] = tok.as_str().as_bytes();
                proof {
                    lemma_digit_bytes_chars(tok@);
                }
                if bs.len() == 0 {
                    return None;
                }
                let mut acc: u64 = 0;
                let mut i: usize = 0;
                while i < bs.len()
                    invariant
                        0 <= i <= bs@.len(),
                        bs@.len() > 0,
                        self.deep() == Jv::Num(tok@),
                        bs@ == encode_utf8(tok@),
                        crate::frame::all_dec_digits(bs@.take(i as int)),
                        acc as nat == crate::frame::dec_value(bs@.take(i as int)),
                    decreases bs@.len() - i,
                {
                    let b = bs[i];
                    if !(0x30 <= b && b <= 0x39) {
                        proof {
                            assert(!crate::frame::is_dec_digit(bs@[i as int]));
                            lemma_digit_bytes_chars(tok@);
                        }
                        return None;
                    }
                    let d: u64 = (b - 0x30) as u64;
                    if acc > u64::MAX / 10 || (acc == u64::MAX / 10 && d > u64::MAX % 10) {
                        proof {
                            assert(bs@.take(i + 1).drop_last() =~= bs@.take(i as int));
                            assert(crate::frame::dec_value(bs@.take(i + 1)) == acc as nat * 10
                                + d);
                            assert(acc as nat * 10 + d > u64::MAX as nat) by (nonlinear_arith)
                                requires
                                    acc > u64::MAX / 10 || (acc == u64::MAX / 10 && d > u64::MAX
                                        % 10),
                                    d == bs@[i as int] - 0x30,
                                    crate::frame::is_dec_digit(bs@[i as int]),
                                    acc as nat == crate::frame::dec_value(bs@.take(i as int)),
                                    u64::MAX / 10 * 10 + u64::MAX % 10 == u64::MAX,
                            ;
                            if crate::frame::all_dec_digits(bs@) {
                                crate::frame::lemma_dec_value_prefix_le(bs@, i + 1);
                            }
                            lemma_digit_bytes_chars(tok@);
                        }
                        return None;
                    }
                    proof {
                        assert(acc * 10 + d <= u64::MAX) by (nonlinear_arith)
                            requires
                                acc <= u64::MAX / 10,
                                !(acc > u64::MAX / 10 || (acc == u64::MAX / 10 && d > u64::MAX
                                    % 10)),
                                d <= 9,
                                u64::MAX / 10 * 10 + u64::MAX % 10 == u64::MAX,
                        ;
                        assert(bs@.take(i + 1).drop_last() =~= bs@.take(i as int));
                    }
                    acc = acc * 10 + d;
                    i = i + 1;
                }
                proof {
                    assert(bs@.take(bs@.len() as int) =~= bs@);
                    lemma_digit_bytes_chars(tok@);
                }
                Some(acc)
            },
            _ => None,
        }
    }
}

/// Digit-run number tokens look the same as characters and as UTF-8
/// bytes: the bytes are digits exactly when the characters are, and then
/// both spell the same value.
proof fn lemma_digit_bytes_chars(t: Seq<char>)
    ensures
        crate::frame::all_dec_digits(encode_utf8(t)) <==> (forall|i: int|
            0 <= i < t.len() ==> is_digit_char(#[trigger] t[i])),
        crate::frame::all_dec_digits(encode_utf8(t)) ==> encode_utf8(t).len() == t.len()
            && crate::frame::dec_value(encode_utf8(t)) == chars_dec_value(t),
        encode_utf8(t).len() == 0 <==> t.len() == 0,
{
    let eb = encode_utf8(t);
    if t.len() > 0 {
        assert(vstd::utf8::encode_scalar(t[0] as u32).len() >= 1);
        assert(eb == vstd::utf8::encode_scalar(t[0] as u32) + encode_utf8(t.drop_first()));
        assert(eb.len() > 0);
    } else {
        assert(eb =~= Seq::<u8>::empty());
    }
    if crate::frame::all_dec_digits(eb) {
        // all bytes are digits, so they are ASCII and decode byte for byte
        assert forall|i: int| 0 <= i < eb.len() implies #[trigger] eb[i] < 0x80 by {
            assert(crate::frame::is_dec_digit(eb[i]));
        }
        crate::text::lemma_ascii_decode(eb);
        vstd::utf8::encode_utf8_decode_utf8(t);
        assert(t == ascii_chars_of(eb));
        assert(t.len() == eb.len());
        assert forall|i: int| 0 <= i < t.len() implies is_digit_char(#[trigger] t[i]) by {
            assert(t[i] == eb[i] as char);
            assert(crate::frame::is_dec_digit(eb[i]));
        }
        assert forall|i: int| 0 <= i < eb.len() implies #[trigger] eb[i] == t[i] as u8 by {
            assert(t[i] == eb[i] as char);
            assert(crate::frame::is_dec_digit(eb[i]));
            assert((eb[i] as char) as u8 == eb[i]);
        }
        lemma_dec_value_cons(eb, t);
    }
    if (forall|i: int| 0 <= i < t.len() ==> is_digit_char(#[trigger] t[i])) {
        assert forall|i: int| 0 <= i < t.len() implies '\0' <= #[trigger] t[i] <= '\u{7f}' by {
            assert(is_digit_char(t[i]));
        }
        assert(vstd::utf8::is_ascii_chars(t));
        vstd::utf8::is_ascii_chars_encode_utf8(t);
        assert forall|i: int| 0 <= i < eb.len() implies crate::frame::is_dec_digit(
            #[trigger] eb[i],
        ) by {
            assert(eb[i] == t[i] as u8);
            assert(is_digit_char(t[i]));
        }
        assert(crate::frame::all_dec_digits(eb));
    }
}

/// For digit strings aligned character by character with their bytes, the
/// two value readings agree.
proof fn lemma_dec_value_cons(eb: Seq<u8>, t: Seq<char>)
    requires
        eb.len() == t.len(),
        forall|i: int| 0 <= i < eb.len() ==> #[trigger] eb[i] == t[i] as u8,
        forall|i: int| 0 <= i < t.len() ==> is_digit_char(#[trigger] t[i]),
    ensures
        crate::frame::dec_value(eb) == chars_dec_value(t),
    decreases t.len(),
{
    if t.len() > 0 {
        assert(eb.drop_last().len() == t.drop_last().len());
        lemma_dec_value_cons(eb.drop_last(), t.drop_last());
        assert(eb.last() == t.last() as u8);
        assert(is_digit_char(t.last()));
        assert(eb.last() - 0x30 == t.last() as u32 - '0' as u32);
    }
}



} // verus!
