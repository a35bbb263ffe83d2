//! Parsing JSON text into [`JsonValue`] documents.
//!
//! The grammar is standard JSON: whitespace between tokens, `null`, `true`,
//! `false`, numbers kept as raw tokens, strings with the usual escapes
//! (including `\uXXXX` with surrogate pairs), arrays and objects. The
//! specification-level parser below is a recursive-descent reading of a
//! byte sequence; the executable parser mirrors it exactly.

use vstd::prelude::*;

verus! {

use vstd::utf8::{
    valid_utf8,
    decode_utf8,
    encode_utf8,
    encode_scalar,
    valid_first_scalar,
    length_of_first_scalar,
    take_first_scalar,
    pop_first_scalar,
    is_scalar,
    is_continuation_byte,
    is_leading_byte_width_1,
    is_leading_byte_width_2,
    is_leading_byte_width_3,
    is_leading_byte_width_4,
};
use crate::frame::is_dec_digit;
use crate::json::{Jv, JsonValue};
use crate::text::ascii_chars_of;

broadcast use vstd::seq::group_seq_axioms;

/// JSON token whitespace.
pub open spec fn is_ws(b: u8) -> bool {
    b == 0x20 || b == 0x09 || b == 0x0A || b == 0x0D
}

/// The first index at or after `i` that does not hold whitespace.
pub open spec fn skip_ws(s: Seq<u8>, i: int) -> int
    decreases s.len() - i,
{
    if 0 <= i < s.len() && is_ws(s[i]) {
        skip_ws(s, i + 1)
    } else {
        i
    }
}

/// The first index at or after `i` that does not hold a decimal digit.
pub open spec fn end_digits(s: Seq<u8>, i: int) -> int
    decreases s.len() - i,
{
    if 0 <= i < s.len() && is_dec_digit(s[i]) {
        end_digits(s, i + 1)
    } else {
        i
    }
}

/// The value of one ASCII hex digit, or -1.
pub open spec fn hex_val(b: u8) -> int {
    if 0x30 <= b <= 0x39 {
        b - 0x30
    } else if 0x61 <= b <= 0x66 {
        b - 0x61 + 10
    } else if 0x41 <= b <= 0x46 {
        b - 0x41 + 10
    } else {
        -1
    }
}

/// The value of the four hex digits at `i`, or -1 when absent or malformed.
pub open spec fn sp_hex4(s: Seq<u8>, i: int) -> int {
    if 0 <= i && i + 4 <= s.len() && hex_val(s[i]) >= 0 && hex_val(s[i + 1]) >= 0 && hex_val(
        s[i + 2],
    ) >= 0 && hex_val(s[i + 3]) >= 0 {
        hex_val(s[i]) * 0x1000 + hex_val(s[i + 1]) * 0x100 + hex_val(s[i + 2]) * 16 + hex_val(
            s[i + 3],
        )
    } else {
        -1
    }
}

/// Parses the body of a string literal starting just after the opening
/// quote at `i - 1`: yields the decoded content as UTF-8 bytes and the
/// index just past the closing quote.
pub open spec fn sp_string_bytes(s: Seq<u8>, i: int) -> Option<(Seq<u8>, int)>
    decreases s.len() - i,
{
    if !(0 <= i < s.len()) {
        None
    } else if s[i] == 0x22 {
        Some((Seq::empty(), i + 1))
    } else if s[i] == 0x5C {
        if i + 1 >= s.len() {
            None
        } else {
            let e = s[i + 1];
            if e == 0x22 || e == 0x5C || e == 0x2F {
                match sp_string_bytes(s, i + 2) {
                    Some((b, k)) => Some((seq![e] + b, k)),
                    None => None,
                }
            } else if e == 0x62 {
                match sp_string_bytes(s, i + 2) {
                    Some((b, k)) => Some((seq![0x08u8] + b, k)),
                    None => None,
                }
            } else if e == 0x74 {
                match sp_string_bytes(s, i + 2) {
                    Some((b, k)) => Some((seq![0x09u8] + b, k)),
                    None => None,
                }
            } else if e == 0x6E {
                match sp_string_bytes(s, i + 2) {
                    Some((b, k)) => Some((seq![0x0Au8] + b, k)),
                    None => None,
                }
            } else if e == 0x66 {
                match sp_string_bytes(s, i + 2) {
                    Some((b, k)) => Some((seq![0x0Cu8] + b, k)),
                    None => None,
                }
            } else if e == 0x72 {
                match sp_string_bytes(s, i + 2) {
                    Some((b, k)) => Some((seq![0x0Du8] + b, k)),
                    None => None,
                }
            } else if e == 0x75 {
                let v = sp_hex4(s, i + 2);
                if v < 0 {
                    None
                } else if 0xD800 <= v < 0xDC00 {
                    if i + 8 <= s.len() && s[i + 6] == 0x5C && s[i + 7] == 0x75 {
                        let w = sp_hex4(s, i + 8);
                        if 0xDC00 <= w < 0xE000 {
                            let c = 0x10000 + (v - 0xD800) * 0x400 + (w - 0xDC00);
                            match sp_string_bytes(s, i + 12) {
                                Some((b, k)) => Some((encode_scalar(c as u32) + b, k)),
                                None => None,
                            }
                        } else {
                            None
                        }
                    } else {
                        None
                    }
                } else if 0xDC00 <= v < 0xE000 {
                    None
                } else {
                    match sp_string_bytes(s, i + 6) {
                        Some((b, k)) => Some((encode_scalar(v as u32) + b, k)),
                        None => None,
                    }
                }
            } else {
                None
            }
        }
    } else if s[i] < 0x20 {
        None
    } else {
        let rest = s.subrange(i, s.len() as int);
        if valid_first_scalar(rest) {
            let l = length_of_first_scalar(rest);
            match sp_string_bytes(s, i + l) {
                Some((b, k)) => Some((take_first_scalar(rest) + b, k)),
                None => None,
            }
        } else {
            None
        }
    }
}

/// Parses a number token starting at `i` (no leading whitespace): yields
/// the token's characters and the index just past it.
pub open spec fn sp_number(s: Seq<u8>, i: int) -> Option<(Seq<char>, int)> {
    let j0 = if 0 <= i < s.len() && s[i] == 0x2D {
        i + 1
    } else {
        i
    };
    if !(0 <= j0 < s.len() && is_dec_digit(s[j0])) {
        None
    } else {
        let j1 = if s[j0] == 0x30 {
            j0 + 1
        } else {
            end_digits(s, j0)
        };
        let j2 = if j1 < s.len() && s[j1] == 0x2E {
            if j1 + 1 < s.len() && is_dec_digit(s[j1 + 1]) {
                end_digits(s, j1 + 1)
            } else {
                -1
            }
        } else {
            j1
        };
        if j2 < 0 {
            None
        } else {
            let j3 = if j2 < s.len() && (s[j2] == 0x65 || s[j2] == 0x45) {
                let k = if j2 + 1 < s.len() && (s[j2 + 1] == 0x2B || s[j2 + 1] == 0x2D) {
                    j2 + 2
                } else {
                    j2 + 1
                };
                if k < s.len() && is_dec_digit(s[k]) {
                    end_digits(s, k)
                } else {
                    -1
                }
            } else {
                j2
            };
            if j3 < 0 {
                None
            } else {
                Some((ascii_chars_of(s.subrange(i, j3)), j3))
            }
        }
    }
}

/// Parses one value starting at `i`, whitespace allowed first: yields the
/// document and the index just past it. The fuel bounds recursion depth;
/// [`value_fuel`] is always enough.
pub open spec fn sp_value(s: Seq<u8>, i: int, fuel: nat) -> Option<(Jv, int)>
    decreases fuel,
{
    if fuel == 0 {
        None
    } else {
        let j = skip_ws(s, i);
        if !(0 <= j < s.len()) {
            None
        } else {
            let b = s[j];
            if b == 0x6E {
                if j + 4 <= s.len() && s[j + 1] == 0x75 && s[j + 2] == 0x6C && s[j + 3] == 0x6C {
                    Some((Jv::Null, j + 4))
                } else {
                    None
                }
            } else if b == 0x74 {
                if j + 4 <= s.len() && s[j + 1] == 0x72 && s[j + 2] == 0x75 && s[j + 3] == 0x65 {
                    Some((Jv::Bool(true), j + 4))
                } else {
                    None
                }
            } else if b == 0x66 {
                if j + 5 <= s.len() && s[j + 1] == 0x61 && s[j + 2] == 0x6C && s[j + 3] == 0x73
                    && s[j + 4] == 0x65 {
                    Some((Jv::Bool(false), j + 5))
                } else {
                    None
                }
            } else if b == 0x22 {
                match sp_string_bytes(s, j + 1) {
                    Some((bs, k)) => Some((Jv::Str(decode_utf8(bs)), k)),
                    None => None,
                }
            } else if b == 0x5B {
                let j2 = skip_ws(s, j + 1);
                if 0 <= j2 < s.len() && s[j2] == 0x5D {
                    Some((Jv::Arr(Seq::empty()), j2 + 1))
                } else {
                    match sp_elems(s, j + 1, (fuel - 1) as nat) {
                        Some((vs, k)) => Some((Jv::Arr(vs), k)),
                        None => None,
                    }
                }
            } else if b == 0x7B {
                let j2 = skip_ws(s, j + 1);
                if 0 <= j2 < s.len() && s[j2] == 0x7D {
                    Some((Jv::Obj(Seq::empty()), j2 + 1))
                } else {
                    match sp_members(s, j + 1, (fuel - 1) as nat) {
                        Some((ms, k)) => Some((Jv::Obj(ms), k)),
                        None => None,
                    }
                }
            } else if b == 0x2D || is_dec_digit(b) {
                match sp_number(s, j) {
                    Some((tok, k)) => Some((Jv::Num(tok), k)),
                    None => None,
                }
            } else {
                None
            }
        }
    }
}

/// Parses the elements of a non-empty array, starting just after `[` or a
/// comma: yields the elements and the index just past the closing `]`.
pub open spec fn sp_elems(s: Seq<u8>, i: int, fuel: nat) -> Option<(Seq<Jv>, int)>
    decreases fuel,
{
    if fuel == 0 {
        None
    } else {
        match sp_value(s, i, (fuel - 1) as nat) {
            None => None,
            Some((v, k)) => {
                let j = skip_ws(s, k);
                if 0 <= j < s.len() && s[j] == 0x2C {
                    match sp_elems(s, j + 1, (fuel - 1) as nat) {
                        Some((vs, m)) => Some((seq![v] + vs, m)),
                        None => None,
                    }
                } else if 0 <= j < s.len() && s[j] == 0x5D {
                    Some((seq![v], j + 1))
                } else {
                    None
                }
            },
        }
    }
}

/// Parses the members of a non-empty object, starting just after `{` or a
/// comma: yields the fields and the index just past the closing `}`.
pub open spec fn sp_members(s: Seq<u8>, i: int, fuel: nat) -> Option<
    (Seq<(Seq<char>, Jv)>, int),
>
    decreases fuel,
{
    if fuel == 0 {
        None
    } else {
        let j = skip_ws(s, i);
        if !(0 <= j < s.len() && s[j] == 0x22) {
            None
        } else {
            match sp_string_bytes(s, j + 1) {
                None => None,
                Some((kb, k)) => {
                    let j2 = skip_ws(s, k);
                    if !(0 <= j2 < s.len() && s[j2] == 0x3A) {
                        None
                    } else {
                        match sp_value(s, j2 + 1, (fuel - 1) as nat) {
                            None => None,
                            Some((v, k2)) => {
                                let j3 = skip_ws(s, k2);
                                if 0 <= j3 < s.len() && s[j3] == 0x2C {
                                    match sp_members(s, j3 + 1, (fuel - 1) as nat) {
                                        Some((ms, m)) => Some(
                                            (seq![(decode_utf8(kb), v)] + ms, m),
                                        ),
                                        None => None,
                                    }
                                } else if 0 <= j3 < s.len() && s[j3] == 0x7D {
                                    Some((seq![(decode_utf8(kb), v)], j3 + 1))
                                } else {
                                    None
                                }
                            },
                        }
                    }
                },
            }
        }
    }
}

/// The bytes left from `i` on, zero when `i` is past the end.
pub open spec fn rem(s: Seq<u8>, i: int) -> int {
    if i <= s.len() {
        s.len() - i
    } else {
        0
    }
}

/// Fuel enough for a value parse at `i`.
pub open spec fn fuel_value(s: Seq<u8>, i: int) -> nat {
    (2 * rem(s, i) + 1) as nat
}

/// Fuel enough for an element or member list parse at `i`.
pub open spec fn fuel_list(s: Seq<u8>, i: int) -> nat {
    (2 * rem(s, i) + 2) as nat
}

pub proof fn lemma_skip_ws_range(s: Seq<u8>, i: int)
    requires
        0 <= i <= s.len(),
    ensures
        i <= skip_ws(s, i) <= s.len(),
    decreases s.len() - i,
{
    if i < s.len() && is_ws(s[i]) {
        lemma_skip_ws_range(s, i + 1);
    }
}

pub proof fn lemma_end_digits_range(s: Seq<u8>, i: int)
    requires
        0 <= i <= s.len(),
    ensures
        i <= end_digits(s, i) <= s.len(),
        forall|m: int| i <= m < end_digits(s, i) ==> is_dec_digit(#[trigger] s[m]),
    decreases s.len() - i,
{
    if i < s.len() && is_dec_digit(s[i]) {
        lemma_end_digits_range(s, i + 1);
    }
}

pub proof fn lemma_string_range(s: Seq<u8>, i: int)
    requires
        0 <= i,
    ensures
        sp_string_bytes(s, i) matches Some((b, k)) ==> i < k <= s.len(),
    decreases s.len() - i,
{
    if 0 <= i < s.len() {
        if s[i] == 0x22 {
        } else if s[i] == 0x5C {
            if i + 1 < s.len() {
                let e = s[i + 1];
                if e == 0x75 {
                    let v = sp_hex4(s, i + 2);
                    if v >= 0 {
                        if 0xD800 <= v < 0xDC00 {
                            if i + 8 <= s.len() && s[i + 6] == 0x5C && s[i + 7] == 0x75 {
                                let w = sp_hex4(s, i + 8);
                                if 0xDC00 <= w < 0xE000 {
                                    lemma_string_range(s, i + 12);
                                }
                            }
                        } else if !(0xDC00 <= v < 0xE000) {
                            lemma_string_range(s, i + 6);
                        }
                    }
                } else {
                    lemma_string_range(s, i + 2);
                }
            }
        } else if s[i] >= 0x20 {
            let rest = s.subrange(i, s.len() as int);
            if valid_first_scalar(rest) {
                let l = length_of_first_scalar(rest);
                assert(1 <= l <= rest.len());
                lemma_string_range(s, i + l);
            }
        }
    }
}

pub proof fn lemma_number_range(s: Seq<u8>, i: int)
    requires
        0 <= i,
    ensures
        sp_number(s, i) matches Some((tok, k)) ==> i < k <= s.len(),
{
    let j0 = if 0 <= i < s.len() && s[i] == 0x2D {
        i + 1
    } else {
        i
    };
    if 0 <= j0 < s.len() && is_dec_digit(s[j0]) {
        lemma_end_digits_range(s, j0);
        let j1 = if s[j0] == 0x30 {
            j0 + 1
        } else {
            end_digits(s, j0)
        };
        assert(j0 < j1 <= s.len()) by {
            if s[j0] != 0x30 {
                assert(end_digits(s, j0) == end_digits(s, j0 + 1));
                lemma_end_digits_range(s, j0 + 1);
            }
        }
        if j1 < s.len() && s[j1] == 0x2E {
            if j1 + 1 < s.len() && is_dec_digit(s[j1 + 1]) {
                lemma_end_digits_range(s, j1 + 1);
            }
        }
        let j2 = if j1 < s.len() && s[j1] == 0x2E {
            if j1 + 1 < s.len() && is_dec_digit(s[j1 + 1]) {
                end_digits(s, j1 + 1)
            } else {
                -1
            }
        } else {
            j1
        };
        if j2 >= 0 {
            assert(j1 <= j2 <= s.len()) by {
                if j1 < s.len() && s[j1] == 0x2E {
                    assert(end_digits(s, j1 + 1) == end_digits(s, j1 + 2));
                    lemma_end_digits_range(s, j1 + 2);
                }
            }
            if j2 < s.len() && (s[j2] == 0x65 || s[j2] == 0x45) {
                let k = if j2 + 1 < s.len() && (s[j2 + 1] == 0x2B || s[j2 + 1] == 0x2D) {
                    j2 + 2
                } else {
                    j2 + 1
                };
                if k < s.len() && is_dec_digit(s[k]) {
                    lemma_end_digits_range(s, k);
                    assert(end_digits(s, k) == end_digits(s, k + 1));
                    lemma_end_digits_range(s, k + 1);
                }
            }
        }
    }
}

pub proof fn lemma_value_range(s: Seq<u8>, i: int, fuel: nat)
    requires
        0 <= i,
    ensures
        sp_value(s, i, fuel) matches Some((v, k)) ==> i < k <= s.len(),
    decreases fuel,
{
    if fuel > 0 {
        let j = skip_ws(s, i);
        if 0 <= j < s.len() {
            if i <= s.len() {
                lemma_skip_ws_range(s, i);
            }
            let b = s[j];
            if b == 0x22 {
                lemma_string_range(s, j + 1);
            } else if b == 0x5B {
                if j + 1 <= s.len() {
                    lemma_skip_ws_range(s, j + 1);
                }
                lemma_elems_range(s, j + 1, (fuel - 1) as nat);
            } else if b == 0x7B {
                if j + 1 <= s.len() {
                    lemma_skip_ws_range(s, j + 1);
                }
                lemma_members_range(s, j + 1, (fuel - 1) as nat);
            } else if b == 0x2D || is_dec_digit(b) {
                lemma_number_range(s, j);
            }
        }
    }
}

pub proof fn lemma_elems_range(s: Seq<u8>, i: int, fuel: nat)
    requires
        0 <= i,
    ensures
        sp_elems(s, i, fuel) matches Some((vs, k)) ==> i < k <= s.len(),
    decreases fuel,
{
    if fuel > 0 {
        lemma_value_range(s, i, (fuel - 1) as nat);
        match sp_value(s, i, (fuel - 1) as nat) {
            None => {},
            Some((v, k)) => {
                lemma_skip_ws_range(s, k);
                let j = skip_ws(s, k);
                if 0 <= j < s.len() && s[j] == 0x2C {
                    lemma_elems_range(s, j + 1, (fuel - 1) as nat);
                }
            },
        }
    }
}

pub proof fn lemma_members_range(s: Seq<u8>, i: int, fuel: nat)
    requires
        0 <= i,
    ensures
        sp_members(s, i, fuel) matches Some((ms, k)) ==> i < k <= s.len(),
    decreases fuel,
{
    if fuel > 0 {
        let j = skip_ws(s, i);
        if i <= s.len() {
            lemma_skip_ws_range(s, i);
        }
        if 0 <= j < s.len() && s[j] == 0x22 {
            lemma_string_range(s, j + 1);
            match sp_string_bytes(s, j + 1) {
                None => {},
                Some((kb, k)) => {
                    lemma_skip_ws_range(s, k);
                    let j2 = skip_ws(s, k);
                    if 0 <= j2 < s.len() && s[j2] == 0x3A {
                        lemma_value_range(s, j2 + 1, (fuel - 1) as nat);
                        match sp_value(s, j2 + 1, (fuel - 1) as nat) {
                            None => {},
                            Some((v, k2)) => {
                                lemma_skip_ws_range(s, k2);
                                let j3 = skip_ws(s, k2);
                                if 0 <= j3 < s.len() && s[j3] == 0x2C {
                                    lemma_members_range(s, j3 + 1, (fuel - 1) as nat);
                                }
                            },
                        }
                    }
                },
            }
        }
    }
}

/// Beyond [`fuel_value`], the outcome of a value parse does not depend on
/// the fuel.
pub proof fn lemma_value_fuel(s: Seq<u8>, i: int, f1: nat, f2: nat)
    requires
        0 <= i,
        f1 >= fuel_value(s, i),
        f2 >= fuel_value(s, i),
    ensures
        sp_value(s, i, f1) == sp_value(s, i, f2),
    decreases f1 + f2,
{
    let j = skip_ws(s, i);
    if 0 <= j < s.len() {
        lemma_skip_ws_range(s, if i <= s.len() {
            i
        } else {
            0
        });
        assert(i <= s.len());
        lemma_skip_ws_range(s, i);
        let b = s[j];
        if b == 0x5B || b == 0x7B {
            assert(fuel_value(s, i) >= 2 * (s.len() - j) + 1);
            assert(rem(s, j + 1) == s.len() - j - 1);
            lemma_skip_ws_range(s, j + 1);
            if b == 0x5B {
                lemma_elems_fuel(s, j + 1, (f1 - 1) as nat, (f2 - 1) as nat);
            } else {
                lemma_members_fuel(s, j + 1, (f1 - 1) as nat, (f2 - 1) as nat);
            }
        }
    }
}

/// Beyond [`fuel_list`], the outcome of an element-list parse does not
/// depend on the fuel.
pub proof fn lemma_elems_fuel(s: Seq<u8>, i: int, f1: nat, f2: nat)
    requires
        0 <= i,
        f1 >= fuel_list(s, i),
        f2 >= fuel_list(s, i),
    ensures
        sp_elems(s, i, f1) == sp_elems(s, i, f2),
    decreases f1 + f2,
{
    lemma_value_fuel(s, i, (f1 - 1) as nat, (f2 - 1) as nat);
    lemma_value_range(s, i, (f1 - 1) as nat);
    match sp_value(s, i, (f1 - 1) as nat) {
        None => {},
        Some((v, k)) => {
            lemma_skip_ws_range(s, k);
            let j = skip_ws(s, k);
            if 0 <= j < s.len() && s[j] == 0x2C {
                assert(i < k <= j);
                assert(fuel_list(s, j + 1) <= fuel_list(s, i) - 2);
                lemma_elems_fuel(s, j + 1, (f1 - 1) as nat, (f2 - 1) as nat);
            }
        },
    }
}

/// Beyond [`fuel_list`], the outcome of a member-list parse does not
/// depend on the fuel.
pub proof fn lemma_members_fuel(s: Seq<u8>, i: int, f1: nat, f2: nat)
    requires
        0 <= i,
        f1 >= fuel_list(s, i),
        f2 >= fuel_list(s, i),
    ensures
        sp_members(s, i, f1) == sp_members(s, i, f2),
    decreases f1 + f2,
{
    let j = skip_ws(s, i);
    if 0 <= j < s.len() && s[j] == 0x22 {
        assert(i <= s.len());
        lemma_skip_ws_range(s, i);
        lemma_string_range(s, j + 1);
        match sp_string_bytes(s, j + 1) {
            None => {},
            Some((kb, k)) => {
                lemma_skip_ws_range(s, k);
                let j2 = skip_ws(s, k);
                if 0 <= j2 < s.len() && s[j2] == 0x3A {
                    assert(i < j2 + 1);
                    lemma_value_fuel(s, j2 + 1, (f1 - 1) as nat, (f2 - 1) as nat);
                    lemma_value_range(s, j2 + 1, (f1 - 1) as nat);
                    match sp_value(s, j2 + 1, (f1 - 1) as nat) {
                        None => {},
                        Some((v, k2)) => {
                            lemma_skip_ws_range(s, k2);
                            let j3 = skip_ws(s, k2);
                            if 0 <= j3 < s.len() && s[j3] == 0x2C {
                                assert(i < j3 + 1);
                                lemma_members_fuel(s, j3 + 1, (f1 - 1) as nat, (f2 - 1) as nat);
                            }
                        },
                    }
                }
            },
        }
    }
}

/// The decoded content of a string literal is valid UTF-8.
pub proof fn lemma_string_bytes_valid(s: Seq<u8>, i: int)
    requires
        0 <= i,
    ensures
        sp_string_bytes(s, i) matches Some((b, k)) ==> valid_utf8(b),
    decreases s.len() - i,
{
    if 0 <= i < s.len() {
        if s[i] == 0x22 {
        } else if s[i] == 0x5C {
            if i + 1 < s.len() {
                let e = s[i + 1];
                if e == 0x75 {
                    let v = sp_hex4(s, i + 2);
                    if v >= 0 {
                        if 0xD800 <= v < 0xDC00 {
                            if i + 8 <= s.len() && s[i + 6] == 0x5C && s[i + 7] == 0x75 {
                                let w = sp_hex4(s, i + 8);
                                if 0xDC00 <= w < 0xE000 {
                                    lemma_string_bytes_valid(s, i + 12);
                                    let c = 0x10000 + (v - 0xD800) * 0x400 + (w - 0xDC00);
                                    lemma_encode_scalar_valid(c as u32);
                                    match sp_string_bytes(s, i + 12) {
                                        Some((b, _)) => {
                                            vstd::utf8::valid_utf8_concat(
                                                encode_scalar(c as u32),
                                                b,
                                            );
                                        },
                                        None => {},
                                    }
                                }
                            }
                        } else if !(0xDC00 <= v < 0xE000) {
                            lemma_string_bytes_valid(s, i + 6);
                            lemma_encode_scalar_valid(v as u32);
                            match sp_string_bytes(s, i + 6) {
                                Some((b, _)) => {
                                    vstd::utf8::valid_utf8_concat(encode_scalar(v as u32), b);
                                },
                                None => {},
                            }
                        }
                    }
                } else if e == 0x22 || e == 0x5C || e == 0x2F || e == 0x62 || e == 0x74 || e
                    == 0x6E || e == 0x66 || e == 0x72 {
                    lemma_string_bytes_valid(s, i + 2);
                    match sp_string_bytes(s, i + 2) {
                        Some((b, _)) => {
                            let one = if e == 0x22 || e == 0x5C || e == 0x2F {
                                seq![e]
                            } else if e == 0x62 {
                                seq![0x08u8]
                            } else if e == 0x74 {
                                seq![0x09u8]
                            } else if e == 0x6E {
                                seq![0x0Au8]
                            } else if e == 0x66 {
                                seq![0x0Cu8]
                            } else {
                                seq![0x0Du8]
                            };
                            crate::text::lemma_ascii_decode(one);
                            vstd::utf8::valid_utf8_concat(one, b);
                        },
                        None => {},
                    }
                }
            }
        } else if s[i] >= 0x20 {
            let rest = s.subrange(i, s.len() as int);
            if valid_first_scalar(rest) {
                let l = length_of_first_scalar(rest);
                assert(1 <= l <= rest.len());
                lemma_string_bytes_valid(s, i + l);
                match sp_string_bytes(s, i + l) {
                    Some((b, _)) => {
                        lemma_take_first_scalar_valid(rest);
                        vstd::utf8::valid_utf8_concat(take_first_scalar(rest), b);
                    },
                    None => {},
                }
            }
        }
    }
}

/// The encoding of one Unicode scalar is valid UTF-8.
proof fn lemma_encode_scalar_valid(v: u32)
    requires
        is_scalar(v),
    ensures
        valid_utf8(encode_scalar(v)),
{
    vstd::utf8::char_is_scalar((v as char));
    let c = v as char;
    assert(c as u32 == v) by {
        vstd::utf8::char_u32_cast(c, v);
    }
    assert(encode_utf8(seq![c]) == encode_scalar(c as u32) + encode_utf8(
        seq![c].drop_first(),
    ));
    assert(seq![c].drop_first() =~= Seq::<char>::empty());
    assert(encode_utf8(seq![c].drop_first()) =~= Seq::<u8>::empty());
    assert(encode_utf8(seq![c]) =~= encode_scalar(v));
    vstd::utf8::encode_utf8_valid_utf8(seq![c]);
}

/// The bytes of the first scalar of a sequence that starts with a valid
/// one form valid UTF-8 on their own.
proof fn lemma_take_first_scalar_valid(rest: Seq<u8>)
    requires
        valid_first_scalar(rest),
    ensures
        valid_utf8(take_first_scalar(rest)),
{
    let head = take_first_scalar(rest);
    let l = length_of_first_scalar(rest);
    assert(1 <= l <= rest.len());
    assert(head.len() == l);
    assert(head[0] == rest[0]);
    assert(l >= 2 ==> head[1] == rest[1]);
    assert(l >= 3 ==> head[2] == rest[2]);
    assert(l >= 4 ==> head[3] == rest[3]);
    assert(vstd::utf8::decode_first_codepoint(head) == vstd::utf8::decode_first_codepoint(rest));
    assert(vstd::utf8::length_of_first_codepoint(head) == vstd::utf8::length_of_first_codepoint(
        rest,
    ));
    assert(valid_first_scalar(head));
    assert(length_of_first_scalar(head) == l);
    assert(pop_first_scalar(head) =~= Seq::<u8>::empty());
    assert(valid_utf8(pop_first_scalar(head)));
    assert(valid_utf8(head));
}

/// Fuel that always suffices for a value parse starting at `i`.
pub open spec fn value_fuel(s: Seq<u8>, i: int) -> nat {
    (2 * s.len() + 2) as nat
}

/// What parsing a whole JSON text yields: the single document it holds,
/// with nothing but whitespace after it, or nothing.
pub open spec fn jparse(s: Seq<u8>) -> Option<Jv> {
    match sp_value(s, 0, value_fuel(s, 0)) {
        Some((v, k)) => {
            if skip_ws(s, k) == s.len() {
                Some(v)
            } else {
                None
            }
        },
        None => None,
    }
}

/// `i` does not point into the middle of a character's encoding.
pub open spec fn bnd(s: Seq<u8>, i: int) -> bool {
    i == s.len() || (0 <= i < s.len() && !is_continuation_byte(s[i]))
}

/// From a sound position of valid UTF-8, a whole character's encoding
/// follows, and the position after it is sound again.
proof fn lemma_bnd_step(s: Seq<u8>, i: int)
    requires
        valid_utf8(s),
        bnd(s, i),
        0 <= i < s.len(),
    ensures
        ({
            let sub = s.subrange(i, s.len() as int);
            &&& valid_first_scalar(sub)
            &&& 1 <= length_of_first_scalar(sub) <= s.len() - i
            &&& bnd(s, i + length_of_first_scalar(sub))
            &&& (s[i] < 0x80 ==> length_of_first_scalar(sub) == 1)
        }),
{
    broadcast use vstd::utf8::is_char_boundary_iff_not_is_continuation_byte;
    broadcast use vstd::utf8::valid_utf8_split;

    assert(vstd::utf8::is_char_boundary(s, i));
    let sub = s.subrange(i, s.len() as int);
    assert(valid_utf8(sub));
    assert(sub.len() > 0);
    assert(valid_first_scalar(sub));
    let l = length_of_first_scalar(sub);
    assert(1 <= l <= sub.len());
    assert(sub[0] == s[i]);
    if s[i] < 0x80 {
        assert(is_leading_byte_width_1(sub[0]));
    }
    let pop = pop_first_scalar(sub);
    assert(valid_utf8(pop));
    assert(pop =~= s.subrange(i + l, s.len() as int));
    if i + l < s.len() {
        assert(pop.len() > 0);
        assert(valid_first_scalar(pop));
        assert(pop[0] == s[i + l]);
        assert(!is_continuation_byte(s[i + l]));
    }
}

/// Stepping over ASCII bytes keeps the position sound.
proof fn lemma_bnd_ascii_run(s: Seq<u8>, i: int, j: int)
    requires
        valid_utf8(s),
        bnd(s, i),
        i <= j <= s.len(),
        forall|m: int| i <= m < j ==> #[trigger] s[m] < 0x80,
    ensures
        bnd(s, j),
    decreases j - i,
{
    if i < j {
        lemma_bnd_step(s, i);
        lemma_bnd_ascii_run(s, i + 1, j);
    }
}

/// Prefixing the outcome of a string-body parse with already-decoded bytes.
pub open spec fn opt_prepend(pre: Seq<u8>, o: Option<(Seq<u8>, int)>) -> Option<(Seq<u8>, int)> {
    match o {
        Some((b, k)) => Some((pre + b, k)),
        None => None,
    }
}

/// Skips whitespace.
fn e_skip_ws(s: &[u8], i: usize) -> (r: usize)
    requires
        i <= s@.len(),
    ensures
        r as int == skip_ws(s@, i as int),
        i <= r <= s@.len(),
        forall|m: int| i <= m < r ==> #[trigger] s@[m] < 0x80,
{
    let mut j = i;
    while j < s.len() && (s[j] == 0x20 || s[j] == 0x09 || s[j] == 0x0A || s[j] == 0x0D)
        invariant
            i <= j <= s@.len(),
            skip_ws(s@, i as int) == skip_ws(s@, j as int),
            forall|m: int| i <= m < j ==> #[trigger] s@[m] < 0x80,
        decreases s@.len() - j,
    {
        j = j + 1;
    }
    j
}

/// Scans to the end of a digit run.
fn e_end_digits(s: &[u8], i: usize) -> (r: usize)
    requires
        i <= s@.len(),
    ensures
        r as int == end_digits(s@, i as int),
        i <= r <= s@.len(),
{
    let mut j = i;
    while j < s.len() && 0x30 <= s[j] && s[j] <= 0x39
        invariant
            i <= j <= s@.len(),
            end_digits(s@, i as int) == end_digits(s@, j as int),
        decreases s@.len() - j,
    {
        j = j + 1;
    }
    j
}

/// Reads four hex digits as a value.
fn e_hex4(s: &[u8], i: usize) -> (r: Option<u32>)
    requires
        i <= s@.len(),
    ensures
        sp_hex4(s@, i as int) >= 0 ==> (r matches Some(v) && v as int == sp_hex4(s@, i as int)
            && v < 0x10000),
        sp_hex4(s@, i as int) < 0 ==> r is None,
{
    if s.len() < 4 || i > s.len() - 4 {
        return None;
    }
    let v0 = match e_hexdigit(s[i]) {
        Some(v) => v,
        None => {
            return None;
        },
    };
    let v1 = match e_hexdigit(s[i + 1]) {
        Some(v) => v,
        None => {
            return None;
        },
    };
    let v2 = match e_hexdigit(s[i + 2]) {
        Some(v) => v,
        None => {
            return None;
        },
    };
    let v3 = match e_hexdigit(s[i + 3]) {
        Some(v) => v,
        None => {
            return None;
        },
    };
    Some((v0 as u32) * 0x1000 + (v1 as u32) * 0x100 + (v2 as u32) * 16 + (v3 as u32))
}

/// Reads one hex digit.
fn e_hexdigit(b: u8) -> (r: Option<u8>)
    ensures
        hex_val(b) >= 0 ==> (r matches Some(v) && v as int == hex_val(b) && v < 16),
        hex_val(b) < 0 ==> r is None,
{
    if 0x30 <= b && b <= 0x39 {
        Some(b - 0x30)
    } else if 0x61 <= b && b <= 0x66 {
        Some(b - 0x61 + 10)
    } else if 0x41 <= b && b <= 0x46 {
        Some(b - 0x41 + 10)
    } else {
        None
    }
}

/// Encodes one Unicode scalar as its UTF-8 bytes.
fn encode_scalar_exec(v: u32) -> (r: Vec<u8>)
    requires
        is_scalar(v),
    ensures
        r@ == encode_scalar(v),
{
    let mut out: Vec<u8> = Vec::new();
    if v < 0x80 {
        out.push((v & 0x7F) as u8);
    } else if v < 0x800 {
        out.push(0xC0u8 | ((v >> 6u32) & 0x1F) as u8);
        out.push(0x80u8 | (v & 0x3F) as u8);
    } else if v < 0x10000 {
        out.push(0xE0u8 | ((v >> 12u32) & 0x0F) as u8);
        out.push(0x80u8 | ((v >> 6u32) & 0x3F) as u8);
        out.push(0x80u8 | (v & 0x3F) as u8);
    } else {
        out.push(0xF0u8 | ((v >> 18u32) & 0x7) as u8);
        out.push(0x80u8 | ((v >> 12u32) & 0x3F) as u8);
        out.push(0x80u8 | ((v >> 6u32) & 0x3F) as u8);
        out.push(0x80u8 | (v & 0x3F) as u8);
    }
    proof {
        assert(out@ =~= encode_scalar(v));
    }
    out
}

/// Parses the body of a string literal; see [`sp_string_bytes`].
#[verifier::rlimit(100)]
fn p_string(s: &[u8], start: usize) -> (r: Option<(Vec<u8>, usize)>)
    requires
        valid_utf8(s@),
        start <= s@.len(),
        bnd(s@, start as int),
    ensures
        match sp_string_bytes(s@, start as int) {
            Some((b, k)) => r matches Some((rb, rk)) && rb@ == b && rk as int == k && k
                <= s@.len() && bnd(s@, k),
            None => r is None,
        },
{
    let n = s.len();
    let mut acc: Vec<u8> = Vec::new();
    let mut cur = start;
    proof {
        assert(n == s@.len());
    }
    proof {
        assert(acc@ =~= Seq::<u8>::empty());
        match sp_string_bytes(s@, cur as int) {
            Some((b, k)) => {
                assert(Seq::<u8>::empty() + b =~= b);
            },
            None => {},
        }
    }
    loop
        invariant
            valid_utf8(s@),
            s@.len() <= usize::MAX,
            start <= cur <= s@.len(),
            bnd(s@, cur as int),
            sp_string_bytes(s@, start as int) == opt_prepend(
                acc@,
                sp_string_bytes(s@, cur as int),
            ),
        decreases s@.len() - cur,
    {
        if cur == s.len() {
            return None;
        }
        let b = s[cur];
        if b == 0x22 {
            proof {
                lemma_bnd_ascii_run(s@, cur as int, cur + 1);
                assert(acc@ + Seq::<u8>::empty() =~= acc@);
            }
            return Some((acc, cur + 1));
        } else if b == 0x5C {
            if cur + 1 >= s.len() {
                return None;
            }
            let e = s[cur + 1];
            let ghost pre = acc@;
            if e == 0x22 || e == 0x5C || e == 0x2F || e == 0x62 || e == 0x74 || e == 0x6E || e
                == 0x66 || e == 0x72 {
                let mb: u8 = if e == 0x62 {
                    0x08
                } else if e == 0x74 {
                    0x09
                } else if e == 0x6E {
                    0x0A
                } else if e == 0x66 {
                    0x0C
                } else if e == 0x72 {
                    0x0D
                } else {
                    e
                };
                acc.push(mb);
                proof {
                    assert(sp_string_bytes(s@, cur as int) == opt_prepend(
                        seq![mb],
                        sp_string_bytes(s@, cur + 2),
                    ));
                    lemma_opt_prepend_assoc(pre, seq![mb], s@, cur + 2);
                    assert(acc@ =~= pre + seq![mb]);
                    lemma_bnd_ascii_run(s@, cur as int, cur + 2);
                }
                cur = cur + 2;
            } else if e == 0x75 {
                match e_hex4(s, cur + 2) {
                    None => {
                        return None;
                    },
                    Some(v) => {
                        if 0xD800 <= v && v < 0xDC00 {
                            if s.len() - cur >= 8 && s[cur + 6] == 0x5C && s[cur + 7] == 0x75 {
                                match e_hex4(s, cur + 8) {
                                    None => {
                                        return None;
                                    },
                                    Some(w) => {
                                        if 0xDC00 <= w && w < 0xE000 {
                                            let c: u32 = 0x10000 + (v - 0xD800) * 0x400 + (w
                                                - 0xDC00);
                                            proof {
                                                assert(is_scalar(c));
                                            }
                                            let eb = encode_scalar_exec(c);
                                            acc.append(&mut eb.clone());
                                            proof {
                                                assert(sp_string_bytes(s@, cur as int)
                                                    == opt_prepend(
                                                    encode_scalar(c),
                                                    sp_string_bytes(s@, cur + 12),
                                                ));
                                                lemma_opt_prepend_assoc(
                                                    pre,
                                                    encode_scalar(c),
                                                    s@,
                                                    cur + 12,
                                                );
                                                assert(acc@ =~= pre + encode_scalar(c));
                                                lemma_bnd_ascii_run(s@, cur as int, cur + 12);
                                            }
                                            cur = cur + 12;
                                        } else {
                                            return None;
                                        }
                                    },
                                }
                            } else {
                                return None;
                            }
                        } else if 0xDC00 <= v && v < 0xE000 {
                            return None;
                        } else {
                            proof {
                                assert(is_scalar(v));
                            }
                            let eb = encode_scalar_exec(v);
                            acc.append(&mut eb.clone());
                            proof {
                                assert(sp_string_bytes(s@, cur as int) == opt_prepend(
                                    encode_scalar(v),
                                    sp_string_bytes(s@, cur + 6),
                                ));
                                lemma_opt_prepend_assoc(pre, encode_scalar(v), s@, cur + 6);
                                assert(acc@ =~= pre + encode_scalar(v));
                                lemma_bnd_ascii_run(s@, cur as int, cur + 6);
                            }
                            cur = cur + 6;
                        }
                    },
                }
            } else {
                return None;
            }
        } else if b < 0x20 {
            return None;
        } else {
            proof {
                lemma_bnd_step(s@, cur as int);
            }
            let ghost sub = s@.subrange(cur as int, s@.len() as int);
            let l: usize = if b < 0x80 {
                1
            } else if b < 0xE0 {
                2
            } else if b < 0xF0 {
                3
            } else {
                4
            };
            proof {
                assert(sub[0] == s@[cur as int]);
                assert(l == length_of_first_scalar(sub));
            }
            let ghost pre = acc@;
            let mut m: usize = 0;
            proof {
                assert(acc@ =~= pre + s@.subrange(cur as int, cur as int));
            }
            while m < l
                invariant
                    s@.len() <= usize::MAX,
                    cur + l <= s@.len(),
                    0 <= m <= l,
                    acc@ =~= pre + s@.subrange(cur as int, cur + m),
                decreases l - m,
            {
                acc.push(s[cur + m]);
                proof {
                    assert(s@.subrange(cur as int, cur + m + 1) =~= s@.subrange(
                        cur as int,
                        cur + m,
                    ).push(s@[cur + m]));
                    assert(acc@ =~= pre + s@.subrange(cur as int, cur + m + 1));
                }
                m = m + 1;
            }
            proof {
                assert(take_first_scalar(sub) =~= s@.subrange(cur as int, cur + l));
                assert(sp_string_bytes(s@, cur as int) == opt_prepend(
                    take_first_scalar(sub),
                    sp_string_bytes(s@, cur + l),
                ));
                lemma_opt_prepend_assoc(pre, take_first_scalar(sub), s@, cur + l);
                assert(acc@ =~= pre + take_first_scalar(sub));
            }
            cur = cur + l;
        }
    }
}

/// A number token consists of ASCII bytes only.
proof fn lemma_number_ascii(s: Seq<u8>, i: int)
    requires
        0 <= i,
    ensures
        sp_number(s, i) matches Some((tok, k)) ==> crate::text::all_ascii(s.subrange(i, k)),
{
    let j0 = if 0 <= i < s.len() && s[i] == 0x2D {
        i + 1
    } else {
        i
    };
    if 0 <= j0 < s.len() && is_dec_digit(s[j0]) {
        lemma_end_digits_range(s, j0);
        let j1 = if s[j0] == 0x30 {
            j0 + 1
        } else {
            end_digits(s, j0)
        };
        assert(j0 < j1) by {
            if s[j0] != 0x30 {
                assert(end_digits(s, j0) == end_digits(s, j0 + 1));
                lemma_end_digits_range(s, j0 + 1);
            }
        }
        if j1 < s.len() && s[j1] == 0x2E && j1 + 1 < s.len() && is_dec_digit(s[j1 + 1]) {
            lemma_end_digits_range(s, j1 + 1);
        }
        let j2 = if j1 < s.len() && s[j1] == 0x2E {
            if j1 + 1 < s.len() && is_dec_digit(s[j1 + 1]) {
                end_digits(s, j1 + 1)
            } else {
                -1
            }
        } else {
            j1
        };
        if j2 >= 0 {
            let j3 = if j2 < s.len() && (s[j2] == 0x65 || s[j2] == 0x45) {
                let k = if j2 + 1 < s.len() && (s[j2 + 1] == 0x2B || s[j2 + 1] == 0x2D) {
                    j2 + 2
                } else {
                    j2 + 1
                };
                if k < s.len() && is_dec_digit(s[k]) {
                    end_digits(s, k)
                } else {
                    -1
                }
            } else {
                j2
            };
            if j2 < s.len() && (s[j2] == 0x65 || s[j2] == 0x45) {
                let k = if j2 + 1 < s.len() && (s[j2 + 1] == 0x2B || s[j2 + 1] == 0x2D) {
                    j2 + 2
                } else {
                    j2 + 1
                };
                if k < s.len() && is_dec_digit(s[k]) {
                    lemma_end_digits_range(s, k);
                }
            }
            if j3 >= 0 {
                let sub = s.subrange(i, j3);
                assert forall|m: int| 0 <= m < sub.len() implies #[trigger] sub[m] < 0x80 by {
                    let p = i + m;
                    assert(sub[m] == s[p]);
                    if p < j0 {
                        assert(s[p] == 0x2D);
                    } else if p < j1 {
                        assert(is_dec_digit(s[p]));
                    } else if p == j1 {
                        assert(s[p] == 0x2E || is_dec_digit(s[p]) || s[p] == 0x65 || s[p]
                            == 0x45 || s[p] == 0x2B || s[p] == 0x2D);
                    } else if p < j2 {
                        assert(is_dec_digit(s[p]));
                    } else {
                        assert(s[p] == 0x65 || s[p] == 0x45 || s[p] == 0x2B || s[p] == 0x2D
                            || is_dec_digit(s[p]));
                    }
                }
            }
        }
    }
}

/// Parses a number token; see [`sp_number`].
fn p_number(s: &[u8], i: usize) -> (r: Option<(String, usize)>)
    requires
        i <= s@.len(),
    ensures
        match sp_number(s@, i as int) {
            Some((tok, k)) => r matches Some((t, rk)) && t@ == tok && rk as int == k && k
                <= s@.len(),
            None => r is None,
        },
{
    let n = s.len();
    let j0 = if i < n && s[i] == 0x2D {
        i + 1
    } else {
        i
    };
    if !(j0 < n && 0x30 <= s[j0] && s[j0] <= 0x39) {
        return None;
    }
    let j1 = if s[j0] == 0x30 {
        j0 + 1
    } else {
        e_end_digits(s, j0)
    };
    let j2 = if j1 < n && s[j1] == 0x2E {
        if j1 + 1 < n && 0x30 <= s[j1 + 1] && s[j1 + 1] <= 0x39 {
            e_end_digits(s, j1 + 1)
        } else {
            return None;
        }
    } else {
        j1
    };
    proof {
        if s@[j0 as int] != 0x30 {
            lemma_end_digits_range(s@, j0 as int);
        }
        lemma_number_range(s@, i as int);
        lemma_number_ascii(s@, i as int);
    }
    let j3 = if j2 < n && (s[j2] == 0x65 || s[j2] == 0x45) {
        let k = if j2 + 1 < n && (s[j2 + 1] == 0x2B || s[j2 + 1] == 0x2D) {
            j2 + 2
        } else {
            j2 + 1
        };
        if k < n && 0x30 <= s[k] && s[k] <= 0x39 {
            e_end_digits(s, k)
        } else {
            return None;
        }
    } else {
        j2
    };
    let mut tok: Vec<u8> = Vec::new();
    let mut m = i;
    proof {
        assert(tok@ =~= s@.subrange(i as int, i as int));
    }
    while m < j3
        invariant
            s@.len() <= usize::MAX,
            i <= m <= j3 <= s@.len(),
            tok@ =~= s@.subrange(i as int, m as int),
        decreases j3 - m,
    {
        tok.push(s[m]);
        proof {
            assert(s@.subrange(i as int, m + 1) =~= s@.subrange(i as int, m as int).push(
                s@[m as int],
            ));
        }
        m = m + 1;
    }
    let text = crate::text::ascii_to_string(tok);
    Some((text, j3))
}

proof fn lemma_opt_prepend_assoc(a: Seq<u8>, b: Seq<u8>, s: Seq<u8>, i: int)
    ensures
        opt_prepend(a, opt_prepend(b, sp_string_bytes(s, i))) == opt_prepend(
            a + b,
            sp_string_bytes(s, i),
        ),
{
    match sp_string_bytes(s, i) {
        Some((bs, k)) => {
            assert(a + (b + bs) =~= (a + b) + bs);
        },
        None => {},
    }
}

/// Each executable document matches its parsed shape, element by element.
pub open spec fn list_models(elems: Seq<JsonValue>, jvs: Seq<Jv>) -> bool {
    elems.len() == jvs.len() && forall|i: int|
        0 <= i < elems.len() ==> #[trigger] elems[i].deep() == jvs[i]
}

/// Each executable field matches its parsed shape, key and value.
pub open spec fn fields_model(fields: Seq<(String, JsonValue)>, ms: Seq<(Seq<char>, Jv)>) -> bool {
    fields.len() == ms.len() && forall|i: int|
        0 <= i < fields.len() ==> (#[trigger] fields[i]).0@ == ms[i].0 && fields[i].1.deep()
            == ms[i].1
}

/// Parses one value; see [`sp_value`].
#[verifier::rlimit(100)]
fn p_value(s: &[u8], i: usize) -> (r: Option<(JsonValue, usize)>)
    requires
        valid_utf8(s@),
        i <= s@.len(),
        bnd(s@, i as int),
    ensures
        match sp_value(s@, i as int, fuel_value(s@, i as int)) {
            Some((jv, k)) => r matches Some((v, rk)) && v.deep() == jv && rk as int == k && k
                <= s@.len() && bnd(s@, k),
            None => r is None,
        },
    decreases s@.len() - i, 0int,
{
    let ghost fuel = fuel_value(s@, i as int);
    let n = s.len();
    let j = e_skip_ws(s, i);
    proof {
        lemma_bnd_ascii_run(s@, i as int, j as int);
    }
    if j == n {
        return None;
    }
    let b = s[j];
    if b == 0x6E {
        if n - j >= 4 && s[j + 1] == 0x75 && s[j + 2] == 0x6C && s[j + 3] == 0x6C {
            proof {
                lemma_bnd_ascii_run(s@, j as int, j + 4);
            }
            Some((JsonValue::Null, j + 4))
        } else {
            None
        }
    } else if b == 0x74 {
        if n - j >= 4 && s[j + 1] == 0x72 && s[j + 2] == 0x75 && s[j + 3] == 0x65 {
            proof {
                lemma_bnd_ascii_run(s@, j as int, j + 4);
            }
            Some((JsonValue::Bool(true), j + 4))
        } else {
            None
        }
    } else if b == 0x66 {
        if n - j >= 5 && s[j + 1] == 0x61 && s[j + 2] == 0x6C && s[j + 3] == 0x73 && s[j + 4]
            == 0x65 {
            proof {
                lemma_bnd_ascii_run(s@, j as int, j + 5);
            }
            Some((JsonValue::Bool(false), j + 5))
        } else {
            None
        }
    } else if b == 0x22 {
        proof {
            lemma_bnd_ascii_run(s@, j as int, j + 1);
        }
        match p_string(s, j + 1) {
            None => None,
            Some((bytes, k)) => {
                proof {
                    lemma_string_bytes_valid(s@, j + 1);
                }
                let text = match crate::text::string_from_utf8(bytes) {
                    Some(t) => t,
                    None => String::new(),
                };
                Some((JsonValue::Str(text), k))
            },
        }
    } else if b == 0x5B {
        proof {
            lemma_bnd_ascii_run(s@, j as int, j + 1);
        }
        let j2 = e_skip_ws(s, j + 1);
        if j2 < n && s[j2] == 0x5D {
            let v = JsonValue::Arr(Vec::new());
            proof {
                lemma_bnd_ascii_run(s@, j + 1, j2 + 1);
                assert(v.deep() is Arr);
                assert(v.deep()->Arr_0 =~= Seq::<Jv>::empty());
            }
            Some((v, j2 + 1))
        } else {
            proof {
                lemma_elems_fuel(
                    s@,
                    j + 1,
                    (fuel - 1) as nat,
                    fuel_list(s@, j + 1),
                );
            }
            match p_elems(s, j + 1) {
                None => None,
                Some((elems, k)) => {
                    let ghost vs = sp_elems(s@, j + 1, fuel_list(s@, j + 1))->Some_0.0;
                    let v = JsonValue::Arr(elems);
                    proof {
                        assert(v.deep() is Arr);
                        assert(v.deep()->Arr_0.len() == vs.len());
                        assert forall|t: int| 0 <= t < vs.len() implies v.deep()->Arr_0[t]
                            == vs[t] by {
                            assert(v.deep()->Arr_0[t] == elems@[t].deep());
                        }
                        assert(v.deep()->Arr_0 =~= vs);
                    }
                    Some((v, k))
                },
            }
        }
    } else if b == 0x7B {
        proof {
            lemma_bnd_ascii_run(s@, j as int, j + 1);
        }
        let j2 = e_skip_ws(s, j + 1);
        if j2 < n && s[j2] == 0x7D {
            let v = JsonValue::Obj(Vec::new());
            proof {
                lemma_bnd_ascii_run(s@, j + 1, j2 + 1);
                assert(v.deep() is Obj);
                assert(v.deep()->Obj_0 =~= Seq::<(Seq<char>, Jv)>::empty());
            }
            Some((v, j2 + 1))
        } else {
            proof {
                lemma_members_fuel(
                    s@,
                    j + 1,
                    (fuel - 1) as nat,
                    fuel_list(s@, j + 1),
                );
            }
            match p_members(s, j + 1) {
                None => None,
                Some((fields, k)) => {
                    let ghost ms = sp_members(s@, j + 1, fuel_list(s@, j + 1))->Some_0.0;
                    let v = JsonValue::Obj(fields);
                    proof {
                        assert(v.deep() is Obj);
                        assert(v.deep()->Obj_0.len() == ms.len());
                        assert forall|t: int| 0 <= t < ms.len() implies v.deep()->Obj_0[t]
                            == ms[t] by {
                            assert(v.deep()->Obj_0[t] == (fields@[t].0@, fields@[t].1.deep()));
                        }
                        assert(v.deep()->Obj_0 =~= ms);
                    }
                    Some((v, k))
                },
            }
        }
    } else if b == 0x2D || (0x30 <= b && b <= 0x39) {
        proof {
            lemma_number_range(s@, j as int);
            lemma_number_ascii(s@, j as int);
        }
        match p_number(s, j) {
            None => None,
            Some((tok, k)) => {
                proof {
                    match sp_number(s@, j as int) {
                        Some((stok, sk)) => {
                            assert forall|m: int| j <= m < sk implies #[trigger] s@[m]
                                < 0x80 by {
                                assert(s@.subrange(j as int, sk)[m - j] == s@[m]);
                                assert(s@.subrange(j as int, sk)[m - j] < 0x80);
                            }
                            lemma_bnd_ascii_run(s@, j as int, sk);
                        },
                        None => {},
                    }
                }
                Some((JsonValue::Num(tok), k))
            },
        }
    } else {
        None
    }
}

/// Parses the elements of a non-empty array; see [`sp_elems`].
#[verifier::rlimit(100)]
fn p_elems(s: &[u8], i: usize) -> (r: Option<(Vec<JsonValue>, usize)>)
    requires
        valid_utf8(s@),
        i <= s@.len(),
        bnd(s@, i as int),
    ensures
        match sp_elems(s@, i as int, fuel_list(s@, i as int)) {
            Some((vs, k)) => r matches Some((v, rk)) && list_models(v@, vs) && rk as int == k && k
                <= s@.len() && bnd(s@, k),
            None => r is None,
        },
    decreases s@.len() - i, 1int,
{
    let ghost fuel = fuel_list(s@, i as int);
    proof {
        assert((fuel - 1) as nat == fuel_value(s@, i as int));
    }
    match p_value(s, i) {
        None => None,
        Some((v, k)) => {
            proof {
                lemma_value_range(s@, i as int, fuel_value(s@, i as int));
            }
            let n = s.len();
            let j = e_skip_ws(s, k);
            proof {
                lemma_bnd_ascii_run(s@, k as int, j as int);
            }
            if j < n && s[j] == 0x2C {
                proof {
                    lemma_bnd_ascii_run(s@, j as int, j + 1);
                    lemma_elems_fuel(
                        s@,
                        j + 1,
                        (fuel - 1) as nat,
                        fuel_list(s@, j + 1),
                    );
                }
                match p_elems(s, j + 1) {
                    None => None,
                    Some((rest, m)) => {
                        let ghost vs_rest = sp_elems(
                            s@,
                            j + 1,
                            fuel_list(s@, j + 1),
                        )->Some_0.0;
                        let mut out = rest;
                        out.insert(0, v);
                        proof {
                            let whole = sp_elems(s@, i as int, fuel)->Some_0.0;
                            assert(whole =~= seq![v.deep()] + vs_rest);
                            assert(list_models(out@, whole));
                        }
                        Some((out, m))
                    },
                }
            } else if j < n && s[j] == 0x5D {
                proof {
                    lemma_bnd_ascii_run(s@, j as int, j + 1);
                }
                let mut out: Vec<JsonValue> = Vec::new();
                out.push(v);
                proof {
                    let whole = sp_elems(s@, i as int, fuel)->Some_0.0;
                    assert(whole =~= seq![out@[0].deep()]);
                    assert(list_models(out@, whole));
                }
                Some((out, j + 1))
            } else {
                None
            }
        },
    }
}

/// Parses the members of a non-empty object; see [`sp_members`].
#[verifier::rlimit(100)]
fn p_members(s: &[u8], i: usize) -> (r: Option<(Vec<(String, JsonValue)>, usize)>)
    requires
        valid_utf8(s@),
        i <= s@.len(),
        bnd(s@, i as int),
    ensures
        match sp_members(s@, i as int, fuel_list(s@, i as int)) {
            Some((ms, k)) => r matches Some((v, rk)) && fields_model(v@, ms) && rk as int == k
                && k <= s@.len() && bnd(s@, k),
            None => r is None,
        },
    decreases s@.len() - i, 1int,
{
    let ghost fuel = fuel_list(s@, i as int);
    let n = s.len();
    let j = e_skip_ws(s, i);
    proof {
        lemma_bnd_ascii_run(s@, i as int, j as int);
    }
    if !(j < n && s[j] == 0x22) {
        return None;
    }
    proof {
        lemma_bnd_ascii_run(s@, j as int, j + 1);
    }
    match p_string(s, j + 1) {
        None => None,
        Some((key_bytes, k)) => {
            proof {
                lemma_string_bytes_valid(s@, j + 1);
                lemma_string_range(s@, j + 1);
            }
            let key = match crate::text::string_from_utf8(key_bytes) {
                Some(t) => t,
                None => String::new(),
            };
            let j2 = e_skip_ws(s, k);
            proof {
                lemma_bnd_ascii_run(s@, k as int, j2 as int);
            }
            if !(j2 < n && s[j2] == 0x3A) {
                return None;
            }
            proof {
                lemma_bnd_ascii_run(s@, j2 as int, j2 + 1);
                lemma_value_fuel(
                    s@,
                    j2 + 1,
                    (fuel - 1) as nat,
                    fuel_value(s@, j2 + 1),
                );
            }
            match p_value(s, j2 + 1) {
                None => None,
                Some((v, k2)) => {
                    proof {
                        lemma_value_range(s@, j2 + 1, fuel_value(s@, j2 + 1));
                    }
                    let j3 = e_skip_ws(s, k2);
                    proof {
                        lemma_bnd_ascii_run(s@, k2 as int, j3 as int);
                    }
                    if j3 < n && s[j3] == 0x2C {
                        proof {
                            lemma_bnd_ascii_run(s@, j3 as int, j3 + 1);
                            lemma_members_fuel(
                                s@,
                                j3 + 1,
                                (fuel - 1) as nat,
                                fuel_list(s@, j3 + 1),
                            );
                        }
                        match p_members(s, j3 + 1) {
                            None => None,
                            Some((rest, m)) => {
                                let ghost ms_rest = sp_members(
                                    s@,
                                    j3 + 1,
                                    fuel_list(s@, j3 + 1),
                                )->Some_0.0;
                                let mut out = rest;
                                out.insert(0, (key, v));
                                proof {
                                    let whole = sp_members(s@, i as int, fuel)->Some_0.0;
                                    assert(whole =~= seq![(out@[0].0@, out@[0].1.deep())]
                                        + ms_rest);
                                    assert(fields_model(out@, whole));
                                }
                                Some((out, m))
                            },
                        }
                    } else if j3 < n && s[j3] == 0x7D {
                        proof {
                            lemma_bnd_ascii_run(s@, j3 as int, j3 + 1);
                        }
                        let mut out: Vec<(String, JsonValue)> = Vec::new();
                        out.push((key, v));
                        proof {
                            let whole = sp_members(s@, i as int, fuel)->Some_0.0;
                            assert(whole =~= seq![(out@[0].0@, out@[0].1.deep())]);
                            assert(fields_model(out@, whole));
                        }
                        Some((out, j3 + 1))
                    } else {
                        None
                    }
                },
            }
        },
    }
}

impl JsonValue {
    /// Parses a JSON text into the single document it holds.
    pub fn parse(s: &str) -> (r: Option<JsonValue>)
        ensures
            match jparse(encode_utf8(s@)) {
                Some(jv) => r matches Some(v) && v.deep() == jv,
                None => r is None,
            },
    {
        let bytes: &[u8] = s.as_bytes();
        proof {
            vstd::utf8::encode_utf8_valid_utf8(s@);
            if s@.len() > 0 {
                assert(valid_first_scalar(bytes@));
                assert(bytes@.subrange(0, bytes@.len() as int) =~= bytes@);
                assert(bnd(bytes@, 0)) by {
                    assert(!is_continuation_byte(bytes@[0]));
                }
            }
            lemma_value_fuel(
                bytes@,
                0,
                fuel_value(bytes@, 0),
                value_fuel(bytes@, 0),
            );
        }
        match p_value(bytes, 0) {
            None => None,
            Some((v, k)) => {
                let j = e_skip_ws(bytes, k);
                if j == bytes.len() {
                    Some(v)
                } else {
                    None
                }
            },
        }
    }
}

} // verus!
