//! Length-prefixed wire framing.
//!
//! A frame is the ASCII decimal UTF-8 byte length of the message, one space
//! (0x20), then the message bytes. The receiver scans bytes up to the first
//! space, parses them as an unsigned decimal integer, then takes exactly that
//! many bytes as the payload. Payload bytes that are not valid UTF-8 decode
//! to the empty string: this leniency is a deliberate, documented policy of
//! the receive path, not an accident.

use vstd::prelude::*;

verus! {

use vstd::utf8::{valid_utf8, decode_utf8, encode_utf8};
use vstd::utf8::{encode_utf8_valid_utf8, encode_utf8_decode_utf8};
use vstd::string::StringSliceAdditionalSpecFns;

/// Fatal framing failures of the receive path.
#[derive(Debug, Clone, Copy, PartialEq, Eq, Structural)]
pub enum ProtocolError {
    /// The bytes before the first space are not an unsigned decimal number
    /// (or the input ends before any space).
    InvalidLength,
    /// The input ends before the announced number of payload bytes.
    Truncated,
}

/// An ASCII decimal digit.
pub open spec fn is_dec_digit(b: u8) -> bool {
    0x30 <= b <= 0x39
}

/// Every byte of `s` is an ASCII decimal digit.
pub open spec fn all_dec_digits(s: Seq<u8>) -> bool {
    forall|i: int| 0 <= i < s.len() ==> is_dec_digit(#[trigger] s[i])
}

/// The ASCII decimal rendering of `n`, most significant digit first.
pub open spec fn dec_digits(n: nat) -> Seq<u8>
    decreases n,
{
    if n < 10 {
        seq![(0x30 + n) as u8]
    } else {
        dec_digits(n / 10) + seq![(0x30 + n % 10) as u8]
    }
}

/// The numeric value of a string of ASCII decimal digits.
pub open spec fn dec_value(s: Seq<u8>) -> nat
    decreases s.len(),
{
    if s.len() == 0 {
        0
    } else {
        (dec_value(s.drop_last()) * 10 + (s.last() - 0x30)) as nat
    }
}

/// Decimal renderings consist of digits only (in particular, no space).
pub proof fn lemma_dec_digits_are_digits(n: nat)
    ensures
        dec_digits(n).len() >= 1,
        all_dec_digits(dec_digits(n)),
    decreases n,
{
    if n >= 10 {
        lemma_dec_digits_are_digits(n / 10);
    }
}

/// Reading back the decimal rendering of `n` yields `n`.
pub proof fn lemma_dec_round_trip(n: nat)
    ensures
        dec_value(dec_digits(n)) == n,
    decreases n,
{
    if n < 10 {
        let s = dec_digits(n);
        assert(s =~= seq![(0x30 + n) as u8]);
        assert(s.drop_last() =~= Seq::<u8>::empty());
        assert(dec_value(s.drop_last()) == 0);
        assert(s.last() == (0x30 + n) as u8);
        assert(s.last() - 0x30 == n);
        assert(dec_value(s) == (0 * 10 + n) as nat);
    } else {
        lemma_dec_round_trip(n / 10);
        assert(dec_digits(n).drop_last() =~= dec_digits(n / 10));
        assert(dec_digits(n).last() == (0x30 + n % 10) as u8);
        assert(dec_value(dec_digits(n)) == ((n / 10) * 10 + (n % 10)) as nat);
        assert(n / 10 * 10 + n % 10 == n) by (nonlinear_arith);
    }
}

/// Renders `n` as its ASCII decimal digits.
pub fn render_len(n: usize) -> (r: Vec<u8>)
    ensures
        r@ == dec_digits(n as nat),
{
    let mut rev: Vec<u8> = Vec::new();
    let mut m: usize = n;
    while m >= 10
        invariant
            dec_digits(n as nat) =~= dec_digits(m as nat) + rev@.reverse(),
        decreases m,
    {
        let d: u8 = (m % 10) as u8;
        rev.push(0x30 + d);
        proof {
            assert(dec_digits(m as nat) =~= dec_digits((m as nat) / 10) + seq![(0x30 + (m as nat) % 10) as u8]);
            assert(rev@.reverse() =~= seq![(0x30 + (m as nat) % 10) as u8] + rev@.drop_last().reverse());
            assert(dec_digits(n as nat) =~= dec_digits(((m / 10) as nat)) + rev@.reverse());
        }
        m = m / 10;
    }
    let d: u8 = (m % 10) as u8;
    rev.push(0x30 + d);
    proof {
        assert(rev@.reverse() =~= seq![(0x30 + (m as nat)) as u8] + rev@.drop_last().reverse());
        assert(dec_digits(n as nat) =~= rev@.reverse());
    }
    let mut r: Vec<u8> = Vec::new();
    let mut i: usize = rev.len();
    while i > 0
        invariant
            i <= rev.len(),
            r@ =~= rev@.subrange(i as int, rev@.len() as int).reverse(),
        decreases i,
    {
        i = i - 1;
        let b = rev[i];
        r.push(b);
        proof {
            assert(rev@.subrange(i as int, rev@.len() as int).reverse() =~= rev@.subrange(
                i + 1,
                rev@.len() as int,
            ).reverse().push(rev@[i as int]));
        }
    }
    proof {
        assert(rev@.subrange(0, rev@.len() as int) =~= rev@);
        assert(r@ =~= dec_digits(n as nat));
    }
    r
}

/// Value of a digit string never shrinks as more digits are appended.
pub proof fn lemma_dec_value_prefix_le(s: Seq<u8>, i: int)
    requires
        0 <= i <= s.len(),
        all_dec_digits(s),
    ensures
        dec_value(s.take(i)) <= dec_value(s),
    decreases s.len() - i,
{
    if i < s.len() {
        let a = dec_value(s.take(i));
        let last = s.take(i + 1).last();
        assert(s.take(i + 1).drop_last() =~= s.take(i));
        assert(last == s[i]);
        assert(is_dec_digit(s[i]));
        assert(dec_value(s.take(i + 1)) == (a * 10 + (last - 0x30)) as nat);
        assert(a * 10 + (last - 0x30) >= a) by (nonlinear_arith)
            requires
                0x30 <= last,
        ;
        lemma_dec_value_prefix_le(s, i + 1);
    } else {
        assert(s.take(i) =~= s);
    }
}

/// Parses a digit token as an unsigned decimal length.
///
/// Succeeds exactly on a non-empty, all-digit token whose value fits in
/// `usize`; anything else is an invalid length prefix.
pub fn parse_len(token: &Vec<u8>) -> (r: Result<usize, ProtocolError>)
    ensures
        match r {
            Ok(n) => token@.len() > 0 && all_dec_digits(token@) && n as nat == dec_value(token@),
            Err(e) => {
                &&& e == ProtocolError::InvalidLength
                &&& !(token@.len() > 0 && all_dec_digits(token@) && dec_value(token@)
                    <= usize::MAX as nat)
            },
        },
{
    if token.len() == 0 {
        return Err(ProtocolError::InvalidLength);
    }
    let mut acc: usize = 0;
    let mut i: usize = 0;
    while i < token.len()
        invariant
            0 <= i <= token@.len(),
            token@.len() > 0,
            all_dec_digits(token@.take(i as int)),
            acc as nat == dec_value(token@.take(i as int)),
        decreases token@.len() - i,
    {
        let b = token[i];
        if !(0x30 <= b && b <= 0x39) {
            proof {
                assert(!is_dec_digit(token@[i as int]));
            }
            return Err(ProtocolError::InvalidLength);
        }
        let d: usize = (b - 0x30) as usize;
        if acc > usize::MAX / 10 || (acc == usize::MAX / 10 && d > usize::MAX % 10) {
            proof {
                assert(token@.take(i + 1).drop_last() =~= token@.take(i as int));
                assert(dec_value(token@.take(i + 1)) == acc as nat * 10 + d);
                assert(acc as nat * 10 + d > usize::MAX as nat) by (nonlinear_arith)
                    requires
                        acc > usize::MAX / 10 || (acc == usize::MAX / 10 && d > usize::MAX % 10),
                        d == token@[i as int] - 0x30,
                        is_dec_digit(token@[i as int]),
                        acc as nat == dec_value(token@.take(i as int)),
                        usize::MAX / 10 * 10 + usize::MAX % 10 == usize::MAX,
                ;
                if all_dec_digits(token@) {
                    lemma_dec_value_prefix_le(token@, i + 1);
                }
            }
            return Err(ProtocolError::InvalidLength);
        }
        proof {
            assert(acc * 10 + d <= usize::MAX) by (nonlinear_arith)
                requires
                    acc <= usize::MAX / 10,
                    !(acc > usize::MAX / 10 || (acc == usize::MAX / 10 && d > usize::MAX % 10)),
                    d <= 9,
                    usize::MAX / 10 * 10 + usize::MAX % 10 == usize::MAX,
            ;
            assert(token@.take(i + 1).drop_last() =~= token@.take(i as int));
        }
        acc = acc * 10 + d;
        i = i + 1;
    }
    proof {
        assert(token@.take(token@.len() as int) =~= token@);
    }
    Ok(acc)
}

/// The characters a received payload decodes to: its UTF-8 decoding, or the
/// empty string when the bytes are not valid UTF-8 (the lenient policy).
pub open spec fn lenient_text(b: Seq<u8>) -> Seq<char> {
    if valid_utf8(b) {
        decode_utf8(b)
    } else {
        Seq::empty()
    }
}

/// Decodes received payload bytes under the lenient policy: invalid UTF-8
/// yields the empty string instead of an error.
pub fn lenient_to_string(bytes: Vec<u8>) -> (r: String)
    ensures
        r@ == lenient_text(bytes@),
{
    match crate::text::string_from_utf8(bytes) {
        Some(s) => s,
        None => String::new(),
    }
}

/// The frame for a message: its UTF-8 byte count in ASCII decimal, one
/// space, then the message bytes.
pub open spec fn frame_bytes(msg: Seq<char>) -> Seq<u8> {
    dec_digits(encode_utf8(msg).len()) + seq![0x20u8] + encode_utf8(msg)
}

/// Encodes one message as a frame.
pub fn encode_frame(msg: &str) -> (r: Vec<u8>)
    ensures
        r@ == frame_bytes(msg@),
{
    let bytes: &[u8] = msg.as_bytes();
    let mut r = render_len(bytes.len());
    r.push(0x20);
    r.extend_from_slice(bytes);
    proof {
        assert(r@ =~= frame_bytes(msg@));
    }
    r
}

/// Index of the first space byte, if any.
pub open spec fn first_space_idx(b: Seq<u8>) -> Option<int>
    decreases b.len(),
{
    if b.len() == 0 {
        None
    } else if b[0] == 0x20 {
        Some(0int)
    } else {
        match first_space_idx(b.drop_first()) {
            Some(i) => Some(i + 1),
            None => None,
        }
    }
}

proof fn lemma_first_space_at(b: Seq<u8>, i: int)
    requires
        0 <= i < b.len(),
        b[i] == 0x20,
        forall|j: int| 0 <= j < i ==> b[j] != 0x20,
    ensures
        first_space_idx(b) == Some(i),
    decreases b.len(),
{
    if i > 0 {
        lemma_first_space_at(b.drop_first(), i - 1);
    }
}

proof fn lemma_first_space_none(b: Seq<u8>)
    requires
        forall|j: int| 0 <= j < b.len() ==> b[j] != 0x20,
    ensures
        first_space_idx(b) == None::<int>,
    decreases b.len(),
{
    if b.len() > 0 {
        lemma_first_space_none(b.drop_first());
    }
}

/// What decoding a byte buffer that starts with one frame yields: the
/// message text under the lenient policy and the number of bytes consumed,
/// or the framing error.
pub open spec fn frame_decode(b: Seq<u8>) -> Result<(Seq<char>, int), ProtocolError> {
    match first_space_idx(b) {
        None => Err(ProtocolError::InvalidLength),
        Some(p) => {
            let tok = b.take(p);
            if !(tok.len() > 0 && all_dec_digits(tok) && dec_value(tok) <= usize::MAX as nat) {
                Err(ProtocolError::InvalidLength)
            } else if b.len() < p + 1 + dec_value(tok) {
                Err(ProtocolError::Truncated)
            } else {
                Ok(
                    (
                        lenient_text(b.subrange(p + 1, p + 1 + dec_value(tok))),
                        p + 1 + dec_value(tok),
                    ),
                )
            }
        },
    }
}

/// Decodes the frame at the start of `buf`.
pub fn decode_frame(buf: &Vec<u8>) -> (r: Result<(String, usize), ProtocolError>)
    ensures
        match (r, frame_decode(buf@)) {
            (Ok((text, consumed)), Ok((stext, sconsumed))) => text@ == stext && consumed as int
                == sconsumed,
            (Err(e), Err(se)) => e == se,
            _ => false,
        },
{
    let n = buf.len();
    let mut p: usize = 0;
    let mut token: Vec<u8> = Vec::new();
    while p < n && buf[p] != 0x20
        invariant
            0 <= p <= n,
            n == buf@.len(),
            token@ =~= buf@.take(p as int),
            forall|j: int| 0 <= j < p ==> buf@[j] != 0x20,
        decreases n - p,
    {
        token.push(buf[p]);
        p = p + 1;
    }
    if p == n {
        proof {
            lemma_first_space_none(buf@);
        }
        return Err(ProtocolError::InvalidLength);
    }
    proof {
        lemma_first_space_at(buf@, p as int);
    }
    let len = match parse_len(&token) {
        Ok(len) => len,
        Err(e) => {
            return Err(e);
        },
    };
    let start = p + 1;
    if len > n - start {
        return Err(ProtocolError::Truncated);
    }
    let mut payload: Vec<u8> = Vec::new();
    let mut i = start;
    while i < start + len
        invariant
            start <= i <= start + len,
            start + len <= n,
            n == buf@.len(),
            payload@ =~= buf@.subrange(start as int, i as int),
        decreases start + len - i,
    {
        payload.push(buf[i]);
        i = i + 1;
    }
    let text = lenient_to_string(payload);
    Ok((text, start + len))
}

/// Decoding the frame of any message yields that message back, consuming
/// the whole frame.
pub proof fn lemma_frame_round_trip(msg: Seq<char>)
    requires
        encode_utf8(msg).len() <= usize::MAX as nat,
    ensures
        frame_decode(frame_bytes(msg)) == Ok::<(Seq<char>, int), ProtocolError>(
            (msg, frame_bytes(msg).len() as int),
        ),
{
    let eb = encode_utf8(msg);
    let d = dec_digits(eb.len());
    let b = frame_bytes(msg);
    lemma_dec_digits_are_digits(eb.len());
    assert(forall|j: int| 0 <= j < d.len() ==> b[j] == d[j]);
    assert(b[d.len() as int] == 0x20);
    lemma_first_space_at(b, d.len() as int);
    assert(b.take(d.len() as int) =~= d);
    lemma_dec_round_trip(eb.len());
    assert(b.len() == d.len() + 1 + eb.len());
    assert(b.subrange(d.len() as int + 1, d.len() as int + 1 + eb.len() as int) =~= eb);
    encode_utf8_valid_utf8(msg);
    encode_utf8_decode_utf8(msg);
}

/// The digits before the space of a frame carry the UTF-8 byte count of the
/// message, not its character count.
pub proof fn lemma_prefix_counts_bytes(msg: Seq<char>)
    ensures
        ({
            let b = frame_bytes(msg);
            match first_space_idx(b) {
                Some(p) => dec_value(b.take(p)) == encode_utf8(msg).len(),
                None => false,
            }
        }),
{
    let eb = encode_utf8(msg);
    let d = dec_digits(eb.len());
    let b = frame_bytes(msg);
    lemma_dec_digits_are_digits(eb.len());
    assert(forall|j: int| 0 <= j < d.len() ==> b[j] == d[j]);
    assert(b[d.len() as int] == 0x20);
    lemma_first_space_at(b, d.len() as int);
    assert(b.take(d.len() as int) =~= d);
    lemma_dec_round_trip(eb.len());
}

} // verus!
