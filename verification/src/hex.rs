//! Hexadecimal text: the form in which the authorised-device list is kept
//! in the secret store.

use vstd::prelude::*;
use vstd::utf8::{encode_utf8, is_ascii_chars, is_ascii_chars_encode_utf8};

verus! {

/// Why a text is no hexadecimal encoding.
#[derive(Debug, Clone, Copy, PartialEq, Eq, Structural)]
pub enum HexError {
    /// The text has an odd number of bytes.
    InvalidLength,
    /// This byte is no hexadecimal digit.
    InvalidChar(u8),
}

/// The lower-case hexadecimal digit of a value under 16.
pub open spec fn hex_digit(n: u8) -> char {
    if n < 10 {
        (48 + n) as char
    } else {
        (87 + n) as char
    }
}

/// The hexadecimal text of `bytes`: two lower-case digits for each byte,
/// the high half first.
pub open spec fn hex_text(bytes: Seq<u8>) -> Seq<char>
    decreases bytes.len(),
{
    if bytes.len() == 0 {
        Seq::empty()
    } else {
        seq![hex_digit(bytes[0] / 16), hex_digit(bytes[0] % 16)] + hex_text(bytes.drop_first())
    }
}

/// The value of a hexadecimal digit in either case, if `c` is one.
pub open spec fn hex_value(c: u8) -> Option<u8> {
    if 48 <= c <= 57 {
        Some((c - 48) as u8)
    } else if 97 <= c <= 102 {
        Some((c - 87) as u8)
    } else if 65 <= c <= 70 {
        Some((c - 55) as u8)
    } else {
        None
    }
}

/// The bytes `head`, followed by what `tail` decoded to.
pub open spec fn hex_prepend(head: Seq<u8>, tail: Result<Seq<u8>, HexError>) -> Result<
    Seq<u8>,
    HexError,
> {
    match tail {
        Ok(rest) => Ok(head + rest),
        Err(e) => Err(e),
    }
}

/// The bytes that the digit pairs of `s` spell, or the first byte of `s`
/// that is no digit.
pub open spec fn hex_pairs(s: Seq<u8>) -> Result<Seq<u8>, HexError>
    decreases s.len(),
{
    if s.len() < 2 {
        Ok(Seq::empty())
    } else {
        match hex_value(s[0]) {
            None => Err(HexError::InvalidChar(s[0])),
            Some(hi) => match hex_value(s[1]) {
                None => Err(HexError::InvalidChar(s[1])),
                Some(lo) => hex_prepend(seq![(hi * 16 + lo) as u8], hex_pairs(s.skip(2))),
            },
        }
    }
}

/// The bytes that the hexadecimal text `s` spells; an error where `s` has
/// odd length or holds a byte that is no digit.
pub open spec fn hex_decoded(s: Seq<u8>) -> Result<Seq<u8>, HexError> {
    if s.len() % 2 != 0 {
        Err(HexError::InvalidLength)
    } else {
        hex_pairs(s)
    }
}

/// Value of one hexadecimal digit.
pub fn hex_val(c: u8) -> (r: Result<u8, HexError>)
    ensures
        match hex_value(c) {
            Some(v) => r == Ok::<u8, HexError>(v),
            None => r == Err::<u8, HexError>(HexError::InvalidChar(c)),
        },
{
    if 48 <= c && c <= 57 {
        Ok(c - 48)
    } else if 97 <= c && c <= 102 {
        Ok(c - 87)
    } else if 65 <= c && c <= 70 {
        Ok(c - 55)
    } else {
        Err(HexError::InvalidChar(c))
    }
}

/// The digit of a value under 16.
fn digit_of(n: u8) -> (c: char)
    requires
        n < 16,
    ensures
        c == hex_digit(n),
{
    if n < 10 {
        (48 + n) as char
    } else {
        (87 + n) as char
    }
}

/// Writes `bytes` as hexadecimal text.
pub fn encode_hex(bytes: &[u8]) -> (s: String)
    ensures
        s@ == hex_text(bytes@),
{
    let mut s = String::new();
    let n = bytes.len();
    let mut i: usize = 0;
    proof {
        assert(bytes@.skip(0) =~= bytes@);
        assert(s@ + hex_text(bytes@) =~= hex_text(bytes@));
    }
    while i < n
        invariant
            i <= n,
            n == bytes.len(),
            s@ + hex_text(bytes@.skip(i as int)) == hex_text(bytes@),
        decreases n - i,
    {
        let b = bytes[i];
        let ghost before = s@;
        let ghost rest = bytes@.skip(i as int);
        s.push(digit_of(b / 16));
        s.push(digit_of(b % 16));
        proof {
            assert(rest[0] == b);
            assert(rest.drop_first() =~= bytes@.skip(i as int + 1));
            assert(s@ + hex_text(bytes@.skip(i as int + 1)) =~= before + (seq![
                hex_digit(b / 16),
                hex_digit(b % 16),
            ] + hex_text(rest.drop_first())));
        }
        i += 1;
    }
    proof {
        assert(bytes@.skip(n as int) =~= Seq::<u8>::empty());
        assert(s@ + hex_text(bytes@.skip(n as int)) =~= s@);
    }
    s
}

/// Reads hexadecimal text back into bytes. Digits of either case are
/// taken; a text of odd length and a character that is no digit are
/// refused.
pub fn decode_hex(s: &str) -> (r: Result<Vec<u8>, HexError>)
    ensures
        match r {
            Ok(v) => hex_decoded(encode_utf8(s@)) == Ok::<Seq<u8>, HexError>(v@),
            Err(e) => hex_decoded(encode_utf8(s@)) == Err::<Seq<u8>, HexError>(e),
        },
{
    let bytes = s.as_bytes();
    let n = bytes.len();
    if n % 2 != 0 {
        return Err(HexError::InvalidLength);
    }
    let mut out: Vec<u8> = Vec::new();
    let mut i: usize = 0;
    proof {
        assert(bytes@.skip(0) =~= bytes@);
        assert(Seq::<u8>::empty() + hex_pairs(bytes@)->Ok_0 =~= hex_pairs(bytes@)->Ok_0);
    }
    while i < n
        invariant
            i <= n,
            i % 2 == 0,
            n % 2 == 0,
            n == bytes.len(),
            bytes@ == encode_utf8(s@),
            hex_pairs(bytes@) == hex_prepend(out@, hex_pairs(bytes@.skip(i as int))),
        decreases n - i,
    {
        let ghost rest = bytes@.skip(i as int);
        let ghost before = out@;
        proof {
            assert(rest[0] == bytes@[i as int]);
            assert(rest[1] == bytes@[i as int + 1]);
            assert(rest.skip(2) =~= bytes@.skip(i as int + 2));
            assert(rest.len() >= 2);
        }
        let hi = match hex_val(bytes[i]) {
            Ok(v) => v,
            Err(e) => {
                proof {
                    assert(hex_pairs(rest) == Err::<Seq<u8>, HexError>(e));
                }
                return Err(e);
            },
        };
        let lo = match hex_val(bytes[i + 1]) {
            Ok(v) => v,
            Err(e) => {
                proof {
                    assert(hex_pairs(rest) == Err::<Seq<u8>, HexError>(e));
                }
                return Err(e);
            },
        };
        out.push(hi * 16 + lo);
        proof {
            let tail = hex_pairs(bytes@.skip(i as int + 2));
            if tail is Ok {
                assert(out@ + tail->Ok_0 =~= before + (seq![(hi * 16 + lo) as u8] + tail->Ok_0));
            }
        }
        i += 2;
    }
    proof {
        assert(bytes@.skip(n as int) =~= Seq::<u8>::empty());
        assert(out@ + Seq::<u8>::empty() =~= out@);
    }
    Ok(out)
}

/// Hexadecimal text holds plain characters only.
pub proof fn lemma_hex_text_ascii(bytes: Seq<u8>)
    ensures
        is_ascii_chars(hex_text(bytes)),
        hex_text(bytes).len() == 2 * bytes.len(),
        forall|i: int|
            0 <= i < bytes.len() ==> {
                &&& #[trigger] hex_text(bytes)[2 * i] == hex_digit(bytes[i] / 16)
                &&& hex_text(bytes)[2 * i + 1] == hex_digit(bytes[i] % 16)
            },
    decreases bytes.len(),
{
    if bytes.len() > 0 {
        lemma_hex_text_ascii(bytes.drop_first());
        let head = seq![hex_digit(bytes[0] / 16), hex_digit(bytes[0] % 16)];
        let tail = hex_text(bytes.drop_first());
        assert(hex_text(bytes) == head + tail);
        assert forall|i: int| 0 <= i < bytes.len() implies {
            &&& #[trigger] hex_text(bytes)[2 * i] == hex_digit(bytes[i] / 16)
            &&& hex_text(bytes)[2 * i + 1] == hex_digit(bytes[i] % 16)
        } by {
            if i > 0 {
                assert(tail[2 * (i - 1)] == hex_digit(bytes.drop_first()[i - 1] / 16));
                assert(hex_text(bytes)[2 * i] == tail[2 * (i - 1)]);
                assert(hex_text(bytes)[2 * i + 1] == tail[2 * (i - 1) + 1]);
            }
        }
        assert forall|k: int| 0 <= k < hex_text(bytes).len() implies '\0' <= #[trigger] hex_text(
            bytes,
        )[k] <= '\u{7f}' by {
            if k >= 2 {
                assert(hex_text(bytes)[k] == tail[k - 2]);
            }
        }
    }
}

/// Reading back what was written gives the bytes that were written.
pub proof fn lemma_hex_round_trip(bytes: Seq<u8>)
    ensures
        hex_decoded(encode_utf8(hex_text(bytes))) == Ok::<Seq<u8>, HexError>(bytes),
{
    lemma_hex_text_ascii(bytes);
    is_ascii_chars_encode_utf8(hex_text(bytes));
    lemma_pairs_round_trip(bytes, encode_utf8(hex_text(bytes)));
}

/// The digit pairs of the digits of `bytes` spell `bytes`.
pub proof fn lemma_pairs_round_trip(bytes: Seq<u8>, digits: Seq<u8>)
    requires
        digits.len() == 2 * bytes.len(),
        forall|i: int|
            0 <= i < bytes.len() ==> {
                &&& #[trigger] digits[2 * i] == hex_digit(bytes[i] / 16) as u8
                &&& digits[2 * i + 1] == hex_digit(bytes[i] % 16) as u8
            },
    ensures
        hex_pairs(digits) == Ok::<Seq<u8>, HexError>(bytes),
    decreases bytes.len(),
{
    if bytes.len() == 0 {
        assert(bytes =~= Seq::<u8>::empty());
    } else {
        let rest = bytes.drop_first();
        let tail = digits.skip(2);
        assert forall|i: int| 0 <= i < rest.len() implies {
            &&& #[trigger] tail[2 * i] == hex_digit(rest[i] / 16) as u8
            &&& tail[2 * i + 1] == hex_digit(rest[i] % 16) as u8
        } by {
            assert(digits[2 * (i + 1)] == hex_digit(bytes[i + 1] / 16) as u8);
        }
        lemma_pairs_round_trip(rest, tail);
        assert(digits[2 * 0int] == hex_digit(bytes[0] / 16) as u8);
        let b = bytes[0];
        let hi: u8 = b / 16;
        let lo: u8 = b % 16;
        assert(hex_value(hex_digit(hi) as u8) == Some(hi));
        assert(hex_value(hex_digit(lo) as u8) == Some(lo));
        assert((hi * 16 + lo) as u8 == b);
        assert(seq![b] + rest =~= bytes);
    }
}

} // verus!
